//! The construction algorithm: consumes the sorted key set and produces,
//! level by level, the raw per-level arrays every other component is built
//! from — sparse labels, LOUDS marker bits and child-indicator bits, plus
//! dense bitmaps for the levels below the dense/sparse cutoff.

use vstd::prelude::*;
use crate::bitvector::{count_ones, lemma_count_ones_le, lemma_count_ones_take_succ,
    lemma_packed_zero_words, packed_bit, packed_bits, read_packed_bit, set_packed_bit};
use crate::config::{K_FANOUT, K_TERMINATOR, K_WORD_SIZE, SuffixType, label_t, level_t,
    position_t, word_t};

verus! {

/// One sparse level's LOUDS bits are consistent with its label count: the
/// words cover the labels, the node count equals the number of set LOUDS
/// bits, padding bits are clear, and a non-empty level starts a node.
pub open spec fn level_louds_ok(labels: Seq<u8>, louds: Seq<u64>, node_count: usize) -> bool {
    &&& node_count == count_ones(packed_bits(louds, labels.len()))
    &&& forall|i: int| labels.len() <= i < louds.len() * 64 ==> !(#[trigger] packed_bit(louds, i))
    &&& labels.len() > 0 ==> packed_bit(louds, 0)
}

/// Total number of suffix slots recorded over all levels: one per
/// distinct key inserted.
pub open spec fn suffix_total(b: BuilderV) -> int {
    crate::bitvector::spec_total_bits(b.suffix_counts, 0, b.labels.len() as int)
}

/// Number of keys among the first `n` that differ from their immediate
/// predecessor; adjacent duplicates count once.
pub open spec fn spec_distinct_upto(keys: Seq<Seq<u8>>, n: int) -> int
    decreases n,
{
    if n <= 0 {
        0
    } else if n == 1 {
        1
    } else {
        spec_distinct_upto(keys, n - 1) + if keys[n - 1] == keys[n - 2] {
            0int
        } else {
            1int
        }
    }
}

/// Number of adjacent-distinct keys of the whole list.
pub open spec fn spec_distinct_count(keys: Seq<Seq<u8>>) -> int {
    spec_distinct_upto(keys, keys.len() as int)
}

/// Addition that tops out at the 64-bit maximum.
pub open spec fn sat_add64(a: int, b: int) -> int {
    if a + b > u64::MAX {
        u64::MAX as int
    } else {
        a + b
    }
}

/// Multiplication that tops out at the 64-bit maximum.
pub open spec fn sat_mul64(a: int, b: int) -> int {
    if a * b > u64::MAX {
        u64::MAX as int
    } else {
        a * b
    }
}

/// The dense cost model, from `level` with `mem` accumulated: two 256-bit
/// bitmaps per node plus a small rank overhead, saturating.
pub open spec fn spec_dense_mem_from(b: BuilderV, downto: int, level: int, mem: int) -> int
    decreases downto - level,
{
    if level < 0 || level >= downto {
        mem
    } else {
        let m1 = sat_add64(mem, sat_mul64(b.node_counts[level] as int, 512));
        let m2 = if level > 0 {
            sat_add64(m1, b.node_counts[level - 1] as int / 8 + 1)
        } else {
            m1
        };
        spec_dense_mem_from(b, downto, level + 1, m2)
    }
}

/// The dense cost of the levels below `downto`.
pub open spec fn spec_dense_mem(b: BuilderV, downto: int) -> int {
    spec_dense_mem_from(b, downto, 0, 0)
}

/// The sparse cost model, from `level` with `mem` accumulated: one byte
/// per label plus two marker bits, saturating.
pub open spec fn spec_sparse_mem_from(b: BuilderV, level: int, mem: int) -> int
    decreases b.labels.len() - level,
{
    if level < 0 || level >= b.labels.len() {
        mem
    } else {
        let items = b.labels[level].len() as int;
        let m1 = sat_add64(mem, sat_add64(items, sat_mul64(2, items) / 8 + 1));
        spec_sparse_mem_from(b, level + 1, m1)
    }
}

/// The sparse cost of the levels at and above `start`.
pub open spec fn spec_sparse_mem(b: BuilderV, start: int) -> int {
    spec_sparse_mem_from(b, start, 0)
}

/// The dense/sparse cutoff the cost model chooses, scanning up from level
/// `c`: the first level where the scaled dense cost is no longer below the
/// sparse cost, or the tree height.
pub open spec fn spec_cutoff_level(b: BuilderV, c: int) -> int
    decreases b.labels.len() - c when 0 <= c <= b.labels.len()
{
    if c < b.labels.len() && sat_mul64(spec_dense_mem(b, c), b.sparse_dense_ratio as int)
        < spec_sparse_mem(b, c) {
        spec_cutoff_level(b, c + 1)
    } else {
        c
    }
}

/// The node that slot `pos` of a sparse level belongs to: one less than
/// the count of LOUDS bits at or before the slot. `louds` is the level's
/// packed LOUDS words, `len` its label count.
pub open spec fn spec_slot_node(louds: Seq<u64>, len: nat, pos: int) -> int {
    count_ones(packed_bits(louds, len).take(pos + 1)) - 1
}

/// Whether slot `pos` is a node's terminator slot: it opens its node and
/// carries the flag that a key ends there instead of a label.
pub open spec fn spec_slot_terminal(louds: Seq<u64>, term: Seq<u64>, pos: int) -> bool {
    packed_bit(louds, pos) && packed_bit(term, pos)
}

/// Whether slot `pos` of a sparse level is the source of dense label bit
/// `i`: the slot lies in node `i / 256`, carries label `i % 256`, and is
/// not a node's terminator slot.
pub open spec fn spec_dense_label_source(
    labels: Seq<u8>,
    louds: Seq<u64>,
    term: Seq<u64>,
    pos: int,
    i: int,
) -> bool {
    &&& 0 <= pos < labels.len()
    &&& spec_slot_node(louds, labels.len(), pos) * 256 + labels[pos] == i
    &&& !spec_slot_terminal(louds, term, pos)
}

/// Whether dense label bit `i` has a source slot in the level.
pub open spec fn spec_dense_label_expected(
    labels: Seq<u8>,
    louds: Seq<u64>,
    term: Seq<u64>,
    i: int,
) -> bool {
    exists|pos: int| #[trigger] spec_dense_label_source(labels, louds, term, pos, i)
}

/// Whether dense child bit `i` has a source slot whose child-indicator
/// bit says the slot leads to a deeper node.
pub open spec fn spec_dense_child_expected(
    labels: Seq<u8>,
    louds: Seq<u64>,
    term: Seq<u64>,
    childs: Seq<u64>,
    i: int,
) -> bool {
    exists|pos: int|
        #[trigger] spec_dense_label_source(labels, louds, term, pos, i) && packed_bit(childs, pos)
}

/// Whether slot `pos` is the terminator slot of node `n`: a key of the
/// set ends at that node.
pub open spec fn spec_dense_prefix_source(
    labels: Seq<u8>,
    louds: Seq<u64>,
    term: Seq<u64>,
    pos: int,
    n: int,
) -> bool {
    &&& 0 <= pos < labels.len()
    &&& spec_slot_node(louds, labels.len(), pos) == n
    &&& spec_slot_terminal(louds, term, pos)
}

/// Whether some key of the set ends at node `n` of the level.
pub open spec fn spec_dense_prefix_expected(
    labels: Seq<u8>,
    louds: Seq<u64>,
    term: Seq<u64>,
    n: int,
) -> bool {
    exists|pos: int| #[trigger] spec_dense_prefix_source(labels, louds, term, pos, n)
}

/// The meaning of the dense bitmaps below the cutoff: bit `n * 256 + c`
/// of a level's label bitmap is set exactly when node `n` of the level
/// holds a slot labelled `c` (a node's terminator slot carries no label),
/// the child bitmap repeats such a slot's child-indicator bit, and bit
/// `n` of the prefix bitmap is set exactly when a key ends at node `n`.
pub open spec fn spec_dense_content(b: BuilderV) -> bool {
    &&& forall|l: int, i: int|
        0 <= l < b.sparse_start_level && 0 <= i < 256 * b.node_counts[l] ==> (
        #[trigger] packed_bit(b.bitmap_labels[l], i)) == spec_dense_label_expected(
            b.labels[l],
            b.louds_bits[l],
            b.terminator_bits[l],
            i,
        )
    &&& forall|l: int, i: int|
        0 <= l < b.sparse_start_level && 0 <= i < 256 * b.node_counts[l] ==> (
        #[trigger] packed_bit(b.bitmap_child_indicator_bits[l], i)) == spec_dense_child_expected(
            b.labels[l],
            b.louds_bits[l],
            b.terminator_bits[l],
            b.child_indicator_bits[l],
            i,
        )
    &&& forall|l: int, n: int|
        0 <= l < b.sparse_start_level && 0 <= n < b.node_counts[l] ==> (
        #[trigger] packed_bit(b.prefixkey_indicator_bits[l], n)) == spec_dense_prefix_expected(
            b.labels[l],
            b.louds_bits[l],
            b.terminator_bits[l],
            n,
        )
}

/// Whether `c` continues the previous key's path at `level`: the level
/// exists, holds a label, its last slot carries no terminator flag, and
/// its last label is `c`.
pub open spec fn spec_char_common(b: BuilderV, c: u8, level: int) -> bool {
    &&& 0 <= level < b.labels.len()
    &&& !b.is_last_item_terminator[level]
    &&& b.labels[level].len() >= 1
    &&& c == b.labels[level].last()
}

/// How far `key` runs along the previous key's path, scanning from level
/// `l`: the first level whose most recent label does not continue it.
pub open spec fn spec_skip_prefix(b: BuilderV, key: Seq<u8>, l: int) -> int
    decreases key.len() - l when 0 <= l <= key.len()
{
    if l < key.len() && spec_char_common(b, key[l], l) {
        spec_skip_prefix(b, key, l + 1)
    } else {
        l
    }
}

/// Length of the longest common prefix of two byte strings.
pub open spec fn spec_lcp(a: Seq<u8>, b: Seq<u8>) -> int
    decreases a.len(),
{
    if a.len() == 0 || b.len() == 0 || a[0] != b[0] {
        0
    } else {
        1 + spec_lcp(a.drop_first(), b.drop_first())
    }
}

/// The common prefix is as long as the strings agree: it is bounded by
/// both lengths, the bytes below it match, and at it the strings end or
/// differ.
pub proof fn lemma_lcp_spec(a: Seq<u8>, b: Seq<u8>)
    ensures
        0 <= spec_lcp(a, b),
        spec_lcp(a, b) <= a.len(),
        spec_lcp(a, b) <= b.len(),
        forall|i: int| 0 <= i < spec_lcp(a, b) ==> a[i] == b[i],
        spec_lcp(a, b) < a.len() && spec_lcp(a, b) < b.len() ==> a[spec_lcp(a, b)] != b[spec_lcp(
            a,
            b,
        )],
    decreases a.len(),
{
    if a.len() == 0 || b.len() == 0 || a[0] != b[0] {
    } else {
        lemma_lcp_spec(a.drop_first(), b.drop_first());
        let l = spec_lcp(a, b);
        assert forall|i: int| 0 <= i < l implies a[i] == b[i] by {
            if i > 0 {
                assert(a.drop_first()[i - 1] == b.drop_first()[i - 1]);
            }
        }
        if l < a.len() && l < b.len() {
            assert(a.drop_first()[l - 1] != b.drop_first()[l - 1]);
        }
    }
}

/// A label-bit source below `lo` is also one below `hi`.
proof fn lemma_label_source_widen(
    lab: Seq<u8>,
    lou: Seq<u64>,
    ter: Seq<u64>,
    i: int,
    lo: int,
    hi: int,
)
    requires
        lo <= hi,
        exists|p: int| #[trigger] spec_dense_label_source(lab, lou, ter, p, i) && p < lo,
    ensures
        exists|p: int| #[trigger] spec_dense_label_source(lab, lou, ter, p, i) && p < hi,
{
    let p = choose|p: int| #[trigger] spec_dense_label_source(lab, lou, ter, p, i) && p < lo;
    assert(spec_dense_label_source(lab, lou, ter, p, i) && p < hi);
}

/// A child-bit source below `lo` is also one below `hi`.
proof fn lemma_child_source_widen(
    lab: Seq<u8>,
    lou: Seq<u64>,
    ter: Seq<u64>,
    chi: Seq<u64>,
    i: int,
    lo: int,
    hi: int,
)
    requires
        lo <= hi,
        exists|p: int|
            #[trigger] spec_dense_label_source(lab, lou, ter, p, i) && packed_bit(chi, p) && p
                < lo,
    ensures
        exists|p: int|
            #[trigger] spec_dense_label_source(lab, lou, ter, p, i) && packed_bit(chi, p) && p
                < hi,
{
    let p = choose|p: int|
        #[trigger] spec_dense_label_source(lab, lou, ter, p, i) && packed_bit(chi, p) && p < lo;
    assert(spec_dense_label_source(lab, lou, ter, p, i) && packed_bit(chi, p) && p < hi);
}

/// A prefix-bit source below `lo` is also one below `hi`.
proof fn lemma_prefix_source_widen(
    lab: Seq<u8>,
    lou: Seq<u64>,
    ter: Seq<u64>,
    n: int,
    lo: int,
    hi: int,
)
    requires
        lo <= hi,
        exists|p: int| #[trigger] spec_dense_prefix_source(lab, lou, ter, p, n) && p < lo,
    ensures
        exists|p: int| #[trigger] spec_dense_prefix_source(lab, lou, ter, p, n) && p < hi,
{
    let p = choose|p: int| #[trigger] spec_dense_prefix_source(lab, lou, ter, p, n) && p < lo;
    assert(spec_dense_prefix_source(lab, lou, ter, p, n) && p < hi);
}

/// Totals agree on ranges where the sequences agree.
proof fn lemma_total_bits_congruent(a: Seq<usize>, b: Seq<usize>, start: int, end: int)
    requires
        forall|l: int| start <= l < end ==> a[l] == b[l],
    ensures
        crate::bitvector::spec_total_bits(a, start, end) == crate::bitvector::spec_total_bits(
            b,
            start,
            end,
        ),
    decreases end - start,
{
    if start < end {
        lemma_total_bits_congruent(a, b, start, end - 1);
    }
}

/// Updating one entry moves the total by the difference.
proof fn lemma_total_bits_update(s: Seq<usize>, start: int, end: int, k: int, v: usize)
    requires
        start <= k < end,
        0 <= start,
        end <= s.len(),
    ensures
        crate::bitvector::spec_total_bits(s.update(k, v), start, end)
            == crate::bitvector::spec_total_bits(s, start, end) + v - s[k],
    decreases end - start,
{
    if k == end - 1 {
        lemma_total_bits_congruent(s.update(k, v), s, start, end - 1);
    } else {
        lemma_total_bits_update(s, start, end - 1, k, v);
    }
}

/// A group of keys each equal to its head adds one distinct key in all.
proof fn lemma_distinct_upto_group(keys: Seq<Seq<u8>>, a: int, b: int)
    requires
        0 <= a <= b < keys.len(),
        forall|j: int| a < j <= b ==> keys[j] == keys[a],
    ensures
        spec_distinct_upto(keys, b + 1) == spec_distinct_upto(keys, a + 1),
    decreases b - a,
{
    if b > a {
        lemma_distinct_upto_group(keys, a, b - 1);
        assert(keys[b] == keys[a]);
        assert(keys[b - 1] == keys[a]);
    }
}

/// Abstract content of a [`Builder`].
pub struct BuilderV {
    pub include_dense: bool,
    pub sparse_dense_ratio: u32,
    pub sparse_start_level: usize,
    pub labels: Seq<Seq<u8>>,
    pub child_indicator_bits: Seq<Seq<u64>>,
    pub louds_bits: Seq<Seq<u64>>,
    pub terminator_bits: Seq<Seq<u64>>,
    pub bitmap_labels: Seq<Seq<u64>>,
    pub bitmap_child_indicator_bits: Seq<Seq<u64>>,
    pub prefixkey_indicator_bits: Seq<Seq<u64>>,
    pub suffix_type: SuffixType,
    pub hash_suffix_len: usize,
    pub real_suffix_len: usize,
    pub suffixes: Seq<Seq<u64>>,
    pub suffix_counts: Seq<usize>,
    pub node_counts: Seq<usize>,
    pub is_last_item_terminator: Seq<bool>,
}

impl BuilderV {
    /// Number of levels built so far.
    pub open spec fn height(self) -> int {
        self.labels.len() as int
    }

    /// Well-formedness of the sparse per-level arrays.
    pub open spec fn wf(self) -> bool {
        let h = self.labels.len();
        &&& self.child_indicator_bits.len() == h
        &&& self.louds_bits.len() == h
        &&& self.suffixes.len() == h
        &&& self.suffix_counts.len() == h
        &&& self.node_counts.len() == h
        &&& self.is_last_item_terminator.len() == h
        &&& self.hash_suffix_len == 0
        &&& self.real_suffix_len == 0
        &&& forall|l: int|
            0 <= l < h ==> (#[trigger] self.child_indicator_bits[l]).len() == self.labels[l].len()
                as int / 64 + 1
        &&& forall|l: int|
            0 <= l < h ==> (#[trigger] self.louds_bits[l]).len() == self.labels[l].len() as int
                / 64 + 1
        &&& self.terminator_bits.len() == h
        &&& forall|l: int|
            0 <= l < h ==> (#[trigger] self.terminator_bits[l]).len() == self.labels[l].len()
                as int / 64 + 1
        &&& forall|l: int|
            0 <= l < h ==> level_louds_ok(
                self.labels[l],
                #[trigger] self.louds_bits[l],
                self.node_counts[l],
            )
    }

    /// Well-formedness of the dense bitmaps for the levels below the
    /// cutoff.
    pub open spec fn wf_dense(self) -> bool {
        let d = self.sparse_start_level;
        &&& d <= self.labels.len()
        &&& self.bitmap_labels.len() == d
        &&& self.bitmap_child_indicator_bits.len() == d
        &&& self.prefixkey_indicator_bits.len() == d
        &&& forall|l: int|
            0 <= l < d ==> (#[trigger] self.bitmap_labels[l]).len() == 4 * self.node_counts[l]
        &&& forall|l: int|
            0 <= l < d ==> (#[trigger] self.bitmap_child_indicator_bits[l]).len() == 4
                * self.node_counts[l]
        &&& forall|l: int|
            0 <= l < d ==> self.node_counts[l] <= (#[trigger] self.prefixkey_indicator_bits[l]).len()
                * 64
    }

    /// The per-level fields that only the dense pass writes.
    pub open spec fn dense_fields(self) -> (Seq<Seq<u64>>, Seq<Seq<u64>>, Seq<Seq<u64>>, usize) {
        (
            self.bitmap_labels,
            self.bitmap_child_indicator_bits,
            self.prefixkey_indicator_bits,
            self.sparse_start_level,
        )
    }
}

/// Builds the per-level arrays of the trie from a sorted key set.
pub struct Builder {
    include_dense: bool,
    sparse_dense_ratio: u32,
    sparse_start_level: level_t,
    labels: Vec<Vec<label_t>>,
    child_indicator_bits: Vec<Vec<word_t>>,
    louds_bits: Vec<Vec<word_t>>,
    terminator_bits: Vec<Vec<word_t>>,
    bitmap_labels: Vec<Vec<word_t>>,
    bitmap_child_indicator_bits: Vec<Vec<word_t>>,
    prefixkey_indicator_bits: Vec<Vec<word_t>>,
    suffix_type: SuffixType,
    hash_suffix_len: level_t,
    real_suffix_len: level_t,
    suffixes: Vec<Vec<word_t>>,
    suffix_counts: Vec<position_t>,
    node_counts: Vec<position_t>,
    is_last_item_terminator: Vec<bool>,
}

impl View for Builder {
    type V = BuilderV;

    closed spec fn view(&self) -> BuilderV {
        BuilderV {
            include_dense: self.include_dense,
            sparse_dense_ratio: self.sparse_dense_ratio,
            sparse_start_level: self.sparse_start_level,
            labels: self.labels.deep_view(),
            child_indicator_bits: self.child_indicator_bits.deep_view(),
            louds_bits: self.louds_bits.deep_view(),
            terminator_bits: self.terminator_bits.deep_view(),
            bitmap_labels: self.bitmap_labels.deep_view(),
            bitmap_child_indicator_bits: self.bitmap_child_indicator_bits.deep_view(),
            prefixkey_indicator_bits: self.prefixkey_indicator_bits.deep_view(),
            suffix_type: self.suffix_type,
            hash_suffix_len: self.hash_suffix_len,
            real_suffix_len: self.real_suffix_len,
            suffixes: self.suffixes.deep_view(),
            suffix_counts: self.suffix_counts@,
            node_counts: self.node_counts@,
            is_last_item_terminator: self.is_last_item_terminator@,
        }
    }
}

/// A packed word array of `len / 64 + 1` words covers `len` bit slots.
pub proof fn lemma_level_words_cover(len: int)
    requires
        0 <= len,
    ensures
        len <= (len / 64 + 1) * 64,
        len < (len / 64 + 1) * 64,
{
    vstd::arithmetic::div_mod::lemma_fundamental_div_mod(len, 64);
}

/// Multiplication that tops out at the word's maximum instead of
/// overflowing.
fn sat_mul_u64(a: u64, b: u64) -> (r: u64)
    ensures
        r == if a * b > u64::MAX {
            u64::MAX as int
        } else {
            a * b
        },
{
    match a.checked_mul(b) {
        Some(v) => v,
        None => u64::MAX,
    }
}

/// Sets bit `pos` of the packed word array at `level` of a per-level
/// array-of-arrays, and states the change at the level of deep views.
fn set_level_bit(bits: &mut Vec<Vec<word_t>>, level: level_t, pos: position_t)
    requires
        level < old(bits)@.len(),
        pos < old(bits).deep_view()[level as int].len() * 64,
    ensures
        final(bits)@.len() == old(bits)@.len(),
        final(bits).deep_view().len() == old(bits).deep_view().len(),
        final(bits).deep_view()[level as int].len() == old(bits).deep_view()[level as int].len(),
        forall|j: int|
            0 <= j < final(bits).deep_view()[level as int].len() * 64 ==> packed_bit(
                final(bits).deep_view()[level as int],
                j,
            ) == (j == pos || packed_bit(old(bits).deep_view()[level as int], j)),
        forall|l: int|
            0 <= l < old(bits)@.len() && l != level ==> final(bits).deep_view()[l] == old(
                bits,
            ).deep_view()[l],
{
    let ghost pre = bits.deep_view();
    let inner = &mut bits[level];
    proof {
        assert(inner@ =~= pre[level as int]);
    }
    set_packed_bit(inner, pos);
    proof {
        assert(bits.deep_view()[level as int] =~= bits@[level as int]@);
        assert forall|l: int| 0 <= l < bits@.len() && l != level implies bits.deep_view()[l]
            == pre[l] by {
            assert(bits.deep_view()[l] =~= bits@[l]@);
            assert(pre[l] =~= old(bits)@[l]@);
        }
    }
}

/// Whether two keys hold the same bytes.
pub fn is_same_key(a: &[u8], b: &[u8]) -> (r: bool)
    ensures
        r == (a@ == b@),
{
    if a.len() != b.len() {
        proof {
            assert(a@ != b@);
        }
        return false;
    }
    let n = a.len();
    let mut i: usize = 0;
    while i < n
        invariant
            i <= n,
            n == a@.len(),
            n == b@.len(),
            forall|j: int| 0 <= j < i ==> a@[j] == b@[j],
        decreases n - i,
    {
        if a[i] != b[i] {
            return false;
        }
        i = i + 1;
    }
    proof {
        assert(a@ =~= b@);
    }
    true
}

impl Builder {
    /// Well-formedness of the sparse arrays.
    pub open spec fn wf(&self) -> bool {
        self@.wf()
    }

    /// Sets bit `pos` of a packed word array.
    pub fn set_bit(bits: &mut Vec<word_t>, pos: position_t)
        requires
            pos < old(bits)@.len() * 64,
        ensures
            final(bits)@.len() == old(bits)@.len(),
            forall|j: int|
                0 <= j < final(bits)@.len() * 64 ==> packed_bit(final(bits)@, j) == (j == pos
                    || packed_bit(old(bits)@, j)),
    {
        set_packed_bit(bits, pos)
    }

    /// Reads bit `pos` of a packed word array.
    pub fn read_bit(bits: &Vec<word_t>, pos: position_t) -> (r: bool)
        requires
            pos < bits@.len() * 64,
        ensures
            r == packed_bit(bits@, pos as int),
    {
        read_packed_bit(bits, pos)
    }

    /// A fresh builder with no levels.
    pub fn new(include_dense: bool, sparse_dense_ratio: u32) -> (r: Builder)
        ensures
            r.wf(),
            r@.include_dense == include_dense,
            r@.sparse_dense_ratio == sparse_dense_ratio,
            r@.sparse_start_level == 0,
            r@.labels.len() == 0,
            r@.bitmap_labels.len() == 0,
            r@.bitmap_child_indicator_bits.len() == 0,
            r@.prefixkey_indicator_bits.len() == 0,
    {
        Builder {
            include_dense,
            sparse_dense_ratio,
            sparse_start_level: 0,
            labels: Vec::new(),
            child_indicator_bits: Vec::new(),
            louds_bits: Vec::new(),
            terminator_bits: Vec::new(),
            bitmap_labels: Vec::new(),
            bitmap_child_indicator_bits: Vec::new(),
            prefixkey_indicator_bits: Vec::new(),
            suffix_type: SuffixType::KNone,
            hash_suffix_len: 0,
            real_suffix_len: 0,
            suffixes: Vec::new(),
            suffix_counts: Vec::new(),
            node_counts: Vec::new(),
            is_last_item_terminator: Vec::new(),
        }
    }

    /// The level at which the sparse encoding starts.
    pub fn get_sparse_start_level(&self) -> (r: level_t)
        ensures
            r == self@.sparse_start_level,
    {
        self.sparse_start_level
    }

    /// Dense per-level label bitmaps.
    pub fn get_bit_map_labels(&self) -> (r: &Vec<Vec<word_t>>)
        ensures
            r.deep_view() == self@.bitmap_labels,
    {
        &self.bitmap_labels
    }

    /// Dense per-level child-indicator bitmaps.
    pub fn get_bitmap_child_indicator_bits(&self) -> (r: &Vec<Vec<word_t>>)
        ensures
            r.deep_view() == self@.bitmap_child_indicator_bits,
    {
        &self.bitmap_child_indicator_bits
    }

    /// Dense per-level prefix-terminal marker bits.
    pub fn get_prefixkey_indicator_bits(&self) -> (r: &Vec<Vec<word_t>>)
        ensures
            r.deep_view() == self@.prefixkey_indicator_bits,
    {
        &self.prefixkey_indicator_bits
    }

    /// How stored suffixes are encoded.
    pub fn get_suffix_type(&self) -> (r: SuffixType)
        ensures
            r == self@.suffix_type,
    {
        self.suffix_type
    }

    /// Number of suffixes recorded per level.
    pub fn get_suffix_counts(&self) -> (r: &Vec<position_t>)
        ensures
            r@ == self@.suffix_counts,
    {
        &self.suffix_counts
    }

    /// Sparse per-level labels.
    pub fn get_labels(&self) -> (r: &Vec<Vec<label_t>>)
        ensures
            r.deep_view() == self@.labels,
    {
        &self.labels
    }

    /// Number of nodes per level.
    pub fn get_node_counts(&self) -> (r: &Vec<position_t>)
        ensures
            r@ == self@.node_counts,
    {
        &self.node_counts
    }

    /// Sparse per-level child-indicator bits.
    pub fn get_child_indicator_bits(&self) -> (r: &Vec<Vec<word_t>>)
        ensures
            r.deep_view() == self@.child_indicator_bits,
    {
        &self.child_indicator_bits
    }

    /// Sparse per-level LOUDS bits.
    pub fn get_louds_bits(&self) -> (r: &Vec<Vec<word_t>>)
        ensures
            r.deep_view() == self@.louds_bits,
    {
        &self.louds_bits
    }

    /// Combined length of the per-key suffix bits; whole tails are stored
    /// verbatim, so this is zero.
    fn get_suffix_len(&self) -> (r: level_t)
        requires
            self.wf(),
        ensures
            r == 0,
    {
        self.hash_suffix_len + self.real_suffix_len
    }

    /// Number of levels built so far.
    fn get_tree_height(&self) -> (r: level_t)
        ensures
            r == self@.labels.len(),
    {
        self.labels.len()
    }

    /// Number of label slots at `level`.
    fn get_num_items(&self, level: level_t) -> (r: position_t)
        requires
            level < self@.labels.len(),
        ensures
            r == self@.labels[level as int].len(),
    {
        self.labels[level].len()
    }

    /// Whether `level` holds no label yet.
    fn is_level_empty(&self, level: level_t) -> (r: bool)
        ensures
            r == (level >= self@.labels.len() || self@.labels[level as int].len() == 0),
    {
        level >= self.labels.len() || self.labels[level].len() == 0
    }

    /// Consumes the sorted key set: builds the sparse arrays, chooses the
    /// dense/sparse cutoff, and fills the dense bitmaps below it. On
    /// success the per-level suffix counts sum to the number of
    /// adjacent-distinct keys, one suffix slot per key. Returns false when
    /// the keys break a construction assumption (an empty or out-of-order
    /// key, or a size beyond the machine word); the builder's arrays are
    /// then not usable.
    pub fn build(&mut self, keys: &Vec<Vec<u8>>) -> (ok: bool)
        requires
            old(self).wf(),
            old(self)@.labels.len() == 0,
            old(self)@.sparse_start_level == 0,
            old(self)@.bitmap_labels.len() == 0,
            old(self)@.bitmap_child_indicator_bits.len() == 0,
            old(self)@.prefixkey_indicator_bits.len() == 0,
        ensures
            final(self).wf(),
            ok ==> final(self)@.wf_dense(),
            ok && !final(self)@.include_dense ==> final(self)@.sparse_start_level == 0,
            final(self)@.include_dense == old(self)@.include_dense,
            // one suffix slot is recorded per adjacent-distinct key
            ok ==> suffix_total(final(self)@) == spec_distinct_count(keys.deep_view()),
            // the dense bitmaps below the cutoff mean what the sparse
            // arrays say
            ok ==> spec_dense_content(final(self)@),
            // the empty key set is never rejected, and assembles the empty
            // structure
            keys.deep_view().len() == 0 ==> (ok && final(self)@.labels.len() == 0
                && final(self)@.sparse_start_level == 0),
    {
        proof {
            assert(suffix_total(self@) == 0);
        }
        if !self.build_sparse(keys) {
            return false;
        }
        if self.include_dense {
            proof {
                if keys.deep_view().len() == 0 {
                    assert(self@.labels.len() == 0);
                    assert(spec_cutoff_level(self@, 0) == 0);
                }
            }
            self.determine_cutoff_level();
            if !self.build_dense() {
                proof {
                    assert(keys.deep_view().len() != 0);
                }
                return false;
            }
        } else {
            proof {
                assert(self@.wf_dense());
                assert(self@.sparse_start_level == 0);
                assert(spec_dense_content(self@));
            }
        }
        true
    }

    /// Inserts every key into the sparse arrays. Returns false when a key
    /// is empty or the keys are so ordered that a key would be consumed
    /// entirely by its predecessor's path.
    fn build_sparse(&mut self, keys: &Vec<Vec<u8>>) -> (ok: bool)
        requires
            old(self).wf(),
        ensures
            final(self).wf(),
            final(self)@.dense_fields() == old(self)@.dense_fields(),
            final(self)@.include_dense == old(self)@.include_dense,
            final(self)@.sparse_dense_ratio == old(self)@.sparse_dense_ratio,
            ok ==> suffix_total(final(self)@) == suffix_total(old(self)@) + spec_distinct_count(
                keys.deep_view(),
            ),
            keys.deep_view().len() == 0 ==> (ok && final(self)@ == old(self)@),
    {
        let ghost kview = keys.deep_view();
        let n = keys.len();
        if n == 0 {
            proof {
                assert(spec_distinct_count(kview) == 0);
            }
            return true;
        }
        let mut i: usize = 0;
        let empty_key: Vec<u8> = Vec::new();
        while i < n
            invariant
                i <= n,
                n == keys@.len(),
                kview == keys.deep_view(),
                self.wf(),
                self@.dense_fields() == old(self)@.dense_fields(),
                self@.include_dense == old(self)@.include_dense,
                self@.sparse_dense_ratio == old(self)@.sparse_dense_ratio,
                empty_key@.len() == 0,
                suffix_total(self@) == suffix_total(old(self)@) + spec_distinct_upto(
                    kview,
                    i as int,
                ),
                i == 0 || i >= n || kview[i as int] != kview[i - 1],
            decreases n - i,
        {
            let ghost total0 = suffix_total(self@);
            let mut level: level_t = self.skip_common_prefix(keys[i].as_slice());
            proof {
                assert(suffix_total(self@) == total0);
            }
            let curpos = i;
            while i + 1 < n && is_same_key(keys[curpos].as_slice(), keys[i + 1].as_slice())
                invariant
                    curpos <= i <= n,
                    i < n,
                    n == keys@.len(),
                    kview == keys.deep_view(),
                    forall|j: int| curpos < j <= i ==> #[trigger] kview[j] == kview[curpos as int],
                decreases n - i,
            {
                proof {
                    assert(keys@[curpos as int]@ =~= kview[curpos as int]);
                    assert(keys@[i + 1]@ =~= kview[i + 1]);
                }
                i = i + 1;
            }
            proof {
                if i + 1 < n {
                    assert(keys@[curpos as int]@ =~= kview[curpos as int]);
                    assert(keys@[i + 1]@ =~= kview[i + 1]);
                    assert(kview[i + 1] != kview[curpos as int]);
                }
            }
            if level >= keys[curpos].len() || keys[curpos].len() == usize::MAX {
                return false;
            }
            if i < n - 1 {
                level = self.insert_key_bytes_to_trie_until_unique(
                    keys[curpos].as_slice(),
                    keys[i + 1].as_slice(),
                    level,
                );
            } else {
                level = self.insert_key_bytes_to_trie_until_unique(
                    keys[curpos].as_slice(),
                    empty_key.as_slice(),
                    level,
                );
            }
            if !self.insert_suffix(level) {
                return false;
            }
            proof {
                assert(suffix_total(self@) == total0 + 1);
                lemma_distinct_upto_group(kview, curpos as int, i as int);
                assert(spec_distinct_upto(kview, curpos + 1) == spec_distinct_upto(
                    kview,
                    curpos as int,
                ) + 1);
                assert(suffix_total(self@) == suffix_total(old(self)@) + spec_distinct_upto(
                    kview,
                    i + 1,
                ));
                if i + 1 < n {
                    assert(kview[i as int] == kview[curpos as int]);
                    assert(kview[i + 1] != kview[i as int]);
                }
            }
            i = i + 1;
        }
        true
    }

    /// Walks the shared prefix with the previous distinct key, marking the
    /// parent's child-indicator bit at each shared byte instead of
    /// re-emitting the label.
    fn skip_common_prefix(&mut self, key: &[u8]) -> (r: level_t)
        requires
            old(self).wf(),
        ensures
            final(self).wf(),
            r <= key@.len(),
            r <= final(self)@.labels.len(),
            r > 0 ==> final(self)@.labels[r - 1].len() >= 1,
            final(self)@.labels == old(self)@.labels,
            final(self)@.louds_bits == old(self)@.louds_bits,
            final(self)@.node_counts == old(self)@.node_counts,
            final(self)@.suffix_counts == old(self)@.suffix_counts,
            final(self)@.suffixes == old(self)@.suffixes,
            final(self)@.is_last_item_terminator == old(self)@.is_last_item_terminator,
            final(self)@.dense_fields() == old(self)@.dense_fields(),
            final(self)@.include_dense == old(self)@.include_dense,
            final(self)@.sparse_dense_ratio == old(self)@.sparse_dense_ratio,
            // the levels walked are exactly those whose most recent label
            // continues the key
            r == spec_skip_prefix(old(self)@, key@, 0),
            // each shared level's most recent slot gets its child bit
            // marked: the previous key's byte there now leads deeper
            forall|l: int|
                0 <= l < r ==> #[trigger] packed_bit(
                    final(self)@.child_indicator_bits[l],
                    old(self)@.labels[l].len() - 1,
                ),
    {
        let key_len = key.len();
        let mut level: level_t = 0;
        while level < key_len && self.is_char_common_prefix(key[level], level)
            invariant
                level <= key_len,
                key_len == key@.len(),
                self.wf(),
                spec_skip_prefix(old(self)@, key@, 0) == spec_skip_prefix(
                    old(self)@,
                    key@,
                    level as int,
                ),
                self@.terminator_bits == old(self)@.terminator_bits,
                forall|l: int|
                    0 <= l < level ==> #[trigger] packed_bit(
                        self@.child_indicator_bits[l],
                        old(self)@.labels[l].len() - 1,
                    ),
                level <= self@.labels.len(),
                level > 0 ==> self@.labels[level - 1].len() >= 1,
                self@.labels == old(self)@.labels,
                self@.louds_bits == old(self)@.louds_bits,
                self@.node_counts == old(self)@.node_counts,
                self@.suffix_counts == old(self)@.suffix_counts,
                self@.suffixes == old(self)@.suffixes,
                self@.is_last_item_terminator == old(self)@.is_last_item_terminator,
                self@.dense_fields() == old(self)@.dense_fields(),
                self@.include_dense == old(self)@.include_dense,
                self@.sparse_dense_ratio == old(self)@.sparse_dense_ratio,
            decreases key_len - level,
        {
            proof {
                assert(spec_char_common(old(self)@, key@[level as int], level as int));
                assert(spec_skip_prefix(old(self)@, key@, level as int) == spec_skip_prefix(
                    old(self)@,
                    key@,
                    level + 1,
                ));
            }
            let pos = self.get_num_items(level) - 1;
            let ghost before = self@;
            let bits = &mut self.child_indicator_bits[level];
            proof {
                assert(bits@ == before.child_indicator_bits[level as int]);
                lemma_level_words_cover(before.labels[level as int].len() as int);
                assert(before.labels[level as int].len() <= bits@.len() * 64);
            }
            set_packed_bit(bits, pos);
            proof {
                assert(self@.labels =~~= before.labels);
                assert(self@.louds_bits =~~= before.louds_bits);
                assert(self@.suffixes =~~= before.suffixes);
                assert(self@.bitmap_labels =~~= before.bitmap_labels);
                assert(self@.bitmap_child_indicator_bits =~~= before.bitmap_child_indicator_bits);
                assert(self@.prefixkey_indicator_bits =~~= before.prefixkey_indicator_bits);
                assert(self@.child_indicator_bits[level as int] =~= self.child_indicator_bits@[
                    level as int]@);
                assert(packed_bit(self@.child_indicator_bits[level as int], pos as int));
                assert forall|l: int|
                    0 <= l < self@.child_indicator_bits.len() && l != level implies
                    self@.child_indicator_bits[l] == before.child_indicator_bits[l] by {
                    assert(self@.child_indicator_bits[l] =~= self.child_indicator_bits@[l]@);
                    assert(before.child_indicator_bits[l] =~= self.child_indicator_bits@[l]@);
                }
                assert forall|l: int| 0 <= l < level + 1 implies #[trigger] packed_bit(
                    self@.child_indicator_bits[l],
                    old(self)@.labels[l].len() - 1,
                ) by {
                    if l == level {
                        assert(pos as int == old(self)@.labels[level as int].len() - 1);
                    } else {
                        assert(self@.child_indicator_bits[l] == before.child_indicator_bits[l]);
                        assert(packed_bit(
                            before.child_indicator_bits[l],
                            old(self)@.labels[l].len() - 1,
                        ));
                    }
                }
                assert forall|l: int| 0 <= l < self@.labels.len() implies (
                    #[trigger] self@.child_indicator_bits[l]).len() == self@.labels[l].len() as int
                    / 64 + 1 by {
                    assert(self@.child_indicator_bits[l].len()
                        == before.child_indicator_bits[l].len());
                }
                assert(self.wf());
            }
            level = level + 1;
        }
        proof {
            if level < key_len {
                assert(!spec_char_common(old(self)@, key@[level as int], level as int));
            }
            assert(spec_skip_prefix(old(self)@, key@, level as int) == level);
        }
        level
    }

    /// Whether `c` continues the previous key's path at `level`: the level
    /// exists, its last slot is no terminator, and its last label is `c`.
    fn is_char_common_prefix(&self, c: label_t, level: level_t) -> (r: bool)
        requires
            self.wf(),
        ensures
            r == spec_char_common(self@, c, level as int),
            r ==> level < self@.labels.len() && self@.labels[level as int].len() >= 1,
    {
        (level < self.get_tree_height()) && !self.is_last_item_terminator[level]
            && self.labels[level].len() > 0 && (c == self.labels[level][self.labels[level].len()
            - 1])
    }

    /// Inserts one label per level from `start_level` until the key is
    /// unique against its successor, or ends in a terminator marker.
    /// Returns the level after the last one written, which is where the
    /// key's suffix begins.
    fn insert_key_bytes_to_trie_until_unique(
        &mut self,
        key: &[u8],
        next_key: &[u8],
        start_level: level_t,
    ) -> (r: level_t)
        requires
            old(self).wf(),
            start_level < key@.len(),
            key@.len() < usize::MAX,
            start_level <= old(self)@.labels.len(),
            start_level > 0 ==> old(self)@.labels[start_level - 1].len() >= 1,
        ensures
            final(self).wf(),
            1 <= r <= final(self)@.labels.len(),
            final(self)@.dense_fields() == old(self)@.dense_fields(),
            final(self)@.include_dense == old(self)@.include_dense,
            final(self)@.sparse_dense_ratio == old(self)@.sparse_dense_ratio,
            suffix_total(final(self)@) == suffix_total(old(self)@),
            // one level past where the key stops being covered: past the
            // skipped prefix, or past what it shares with the next key,
            // or past its own end when the next key extends it
            r == (if spec_lcp(key@, next_key@) <= start_level {
                start_level + 1
            } else if spec_lcp(key@, next_key@) < key@.len() {
                spec_lcp(key@, next_key@) + 1
            } else {
                key@.len() as int + 1
            }),
            // the last level written holds a terminator exactly when the
            // next key extends this one past the skipped prefix
            final(self)@.is_last_item_terminator[r - 1] == (start_level < spec_lcp(key@, next_key@)
                && spec_lcp(key@, next_key@) >= key@.len()),
    {
        let ghost lcp = spec_lcp(key@, next_key@);
        proof {
            lemma_lcp_spec(key@, next_key@);
        }
        let mut level: level_t = start_level;
        let mut is_start_of_node: bool = false;
        if self.is_level_empty(level) {
            is_start_of_node = true;
        }
        // After the skipped common prefix, the first following byte joins
        // the node the previous key's byte opened.
        self.insert_key_byte(key[level], level, is_start_of_node, false);
        level = level + 1;
        if level > next_key.len() || !is_same_key(&key[0..level], &next_key[0..level]) {
            proof {
                if level <= next_key@.len() {
                    assert(key@.subrange(0, level as int) != next_key@.subrange(0, level as int));
                    if lcp > start_level {
                        assert forall|i: int| 0 <= i < level implies key@.subrange(
                            0,
                            level as int,
                        )[i] == next_key@.subrange(0, level as int)[i] by {
                            assert(key@[i] == next_key@[i]);
                        }
                        assert(key@.subrange(0, level as int) =~= next_key@.subrange(
                            0,
                            level as int,
                        ));
                        assert(false);
                    }
                } else {
                    assert(lcp <= next_key@.len() <= start_level);
                }
                assert(lcp <= start_level);
            }
            return level;
        }
        proof {
            assert(key@.subrange(0, level as int) == next_key@.subrange(0, level as int));
            if lcp <= start_level {
                assert(lcp < key@.len() && lcp < next_key@.len());
                assert(key@.subrange(0, level as int)[lcp] == next_key@.subrange(
                    0,
                    level as int,
                )[lcp]);
                assert(false);
            }
        }
        // Every byte that follows starts a new node.
        is_start_of_node = true;
        let key_len = key.len();
        let next_len = next_key.len();
        while level < key_len && level < next_len && key[level] == next_key[level]
            invariant
                self.wf(),
                key_len == key@.len(),
                next_len == next_key@.len(),
                1 <= level <= key_len,
                level <= lcp,
                lcp == spec_lcp(key@, next_key@),
                lcp <= key_len,
                lcp <= next_len,
                forall|i: int| 0 <= i < lcp ==> key@[i] == next_key@[i],
                lcp < key_len && lcp < next_len ==> key@[lcp] != next_key@[lcp],
                level <= self@.labels.len(),
                self@.labels[level - 1].len() >= 1,
                self@.dense_fields() == old(self)@.dense_fields(),
                self@.include_dense == old(self)@.include_dense,
                self@.sparse_dense_ratio == old(self)@.sparse_dense_ratio,
                suffix_total(self@) == suffix_total(old(self)@),
            decreases key_len - level,
        {
            proof {
                assert(level < lcp);
            }
            self.insert_key_byte(key[level], level, true, false);
            level = level + 1;
        }
        proof {
            assert(level == if lcp < key_len {
                lcp
            } else {
                key_len as int
            });
        }
        // The last byte inserted makes the key unique in the trie; a key
        // that ends first gets a terminator marker instead.
        if level < key_len {
            self.insert_key_byte(key[level], level, is_start_of_node, false);
        } else {
            self.insert_key_byte(K_TERMINATOR, level, is_start_of_node, true);
        }
        level + 1
    }

    /// Appends one label at `level`, marking the parent's child bit and,
    /// for the first byte of a node, the LOUDS bit.
    #[verifier::rlimit(80)]
    fn insert_key_byte(&mut self, c: label_t, level: level_t, is_start_of_node: bool, is_term: bool)
        requires
            old(self).wf(),
            level <= old(self)@.labels.len(),
            level > 0 ==> old(self)@.labels[level - 1].len() >= 1,
            !is_start_of_node ==> level < old(self)@.labels.len() && old(self)@.labels[level
                as int].len() >= 1,
        ensures
            final(self).wf(),
            final(self)@.labels.len() == (if level == old(self)@.labels.len() {
                (level + 1) as int
            } else {
                old(self)@.labels.len() as int
            }),
            final(self)@.labels[level as int].len() >= 1,
            // exactly the byte is appended to the level's labels; every
            // other level keeps its run
            final(self)@.labels[level as int] == (if level == old(self)@.labels.len() {
                seq![c]
            } else {
                old(self)@.labels[level as int].push(c)
            }),
            forall|l: int|
                0 <= l < final(self)@.labels.len() && l != level
                    ==> #[trigger] final(self)@.labels[l] == old(self)@.labels[l],
            // the level's freshest slot carries the terminator flag as asked
            final(self)@.is_last_item_terminator[level as int] == is_term,
            final(self)@.dense_fields() == old(self)@.dense_fields(),
            final(self)@.include_dense == old(self)@.include_dense,
            final(self)@.sparse_dense_ratio == old(self)@.sparse_dense_ratio,
            suffix_total(final(self)@) == suffix_total(old(self)@),
    {
        if level >= self.get_tree_height() {
            self.add_level();
        }
        let ghost pre = self@;
        // Sets the parent node's child indicator.
        if level > 0 {
            let pos = self.get_num_items(level - 1) - 1;
            proof {
                lemma_level_words_cover(pre.labels[level - 1].len() as int);
            }
            set_level_bit(&mut self.child_indicator_bits, level - 1, pos);
            proof {
                assert(self@ == (BuilderV {
                    child_indicator_bits: self@.child_indicator_bits,
                    ..pre
                }));
                lemma_builder_child_update(pre, self@, level - 1);
            }
        }
        let ghost mid = self@;
        self.labels[level].push(c);
        proof {
            assert(self@.labels[level as int] =~= mid.labels[level as int].push(c));
            assert forall|l: int| 0 <= l < mid.labels.len() && l != level implies self@.labels[l]
                == mid.labels[l] by {}
            assert(self@ == (BuilderV { labels: self@.labels, ..mid }));
            assert(mid.labels[level as int].len() > 0 ==> packed_bit(
                mid.louds_bits[level as int],
                0,
            ));
            lemma_builder_label_push(mid, self@, level as int, c);
        }
        let ghost pushed = self@;
        let new_len = self.get_num_items(level);
        if is_start_of_node {
            let pos = new_len - 1;
            proof {
                lemma_level_words_cover(pos as int);
            }
            set_level_bit(&mut self.louds_bits, level, pos);
            let ghost withbit = self@;
            let nc = self.node_counts[level];
            proof {
                let lv = level as int;
                let s0 = packed_bits(pushed.louds_bits[lv], pos as nat);
                assert(s0.take(pos as int) =~= s0);
                lemma_count_ones_le(s0, pos as int);
                assert(nc == pushed.node_counts[lv]);
                assert(nc <= pos);
            }
            self.node_counts[level] = nc + 1;
            proof {
                let lv = level as int;
                assert(self@ == (BuilderV {
                    louds_bits: self@.louds_bits,
                    node_counts: self@.node_counts,
                    ..pushed
                }));
                assert(self@.node_counts =~= pushed.node_counts.update(
                    lv,
                    (pushed.node_counts[lv] + 1) as usize,
                ));
                lemma_builder_louds_set(pushed, self@, lv);
            }
        } else {
            proof {
                lemma_level_words_cover((self@.labels[level as int].len() - 1) as int);
                lemma_builder_no_louds(self@, self@, level as int);
            }
        }
        if is_term {
            let pos = new_len - 1;
            proof {
                lemma_level_words_cover(pos as int);
            }
            set_level_bit(&mut self.terminator_bits, level, pos);
        }
        let ghost marked = self@;
        self.is_last_item_terminator[level] = is_term;
        proof {
            assert(self@.is_last_item_terminator =~= marked.is_last_item_terminator.update(
                level as int,
                is_term,
            ));
            assert(self@.is_last_item_terminator[level as int] == is_term);
            let lv = level as int;
            assert(self@ == (BuilderV {
                is_last_item_terminator: self@.is_last_item_terminator,
                ..marked
            }));
            assert(self@.labels[lv].len() == pushed.labels[lv].len());
            assert(self@.child_indicator_bits[lv].len() == (self@.labels[lv].len() - 1) as int
                / 64 + 1);
            assert(self@.louds_bits[lv].len() == (self@.labels[lv].len() - 1) as int / 64 + 1);
            assert(self@.terminator_bits[lv].len() == (self@.labels[lv].len() - 1) as int / 64
                + 1);
            assert forall|l: int|
                0 <= l < self@.labels.len() && l != lv implies (
            #[trigger] self@.terminator_bits[l]).len() == self@.labels[l].len() as int / 64
                + 1 by {
                assert(self@.terminator_bits[l].len() == pre.terminator_bits[l].len());
                assert(self@.labels[l] == pre.labels[l]);
            }
            assert forall|l: int|
                0 <= l < self@.labels.len() && l != lv implies (
            #[trigger] self@.child_indicator_bits[l]).len() == self@.labels[l].len() as int / 64
                + 1 by {
                assert(self@.child_indicator_bits[l].len() == pre.child_indicator_bits[l].len());
                assert(self@.labels[l] == pre.labels[l]);
            }
            assert forall|l: int|
                0 <= l < self@.labels.len() && l != lv implies (
            #[trigger] self@.louds_bits[l]).len() == self@.labels[l].len() as int / 64 + 1 by {
                assert(self@.louds_bits[l] == pre.louds_bits[l]);
                assert(self@.labels[l] == pre.labels[l]);
            }
            assert forall|l: int| 0 <= l < self@.labels.len() implies level_louds_ok(
                self@.labels[l],
                #[trigger] self@.louds_bits[l],
                self@.node_counts[l],
            ) by {
                if l != lv {
                    assert(self@.labels[l] == pre.labels[l]);
                    assert(self@.louds_bits[l] == pre.louds_bits[l]);
                    assert(self@.node_counts[l] == pre.node_counts[l]);
                    assert(level_louds_ok(pre.labels[l], pre.louds_bits[l], pre.node_counts[l]));
                }
            }
        }
        proof {
            assert(self@.suffix_counts == pre.suffix_counts);
            assert(self@.labels.len() == pre.labels.len());
            assert(suffix_total(self@) == suffix_total(pre));
        }
        self.move_to_next_item_slot(level);
        proof {
            assert(suffix_total(self@) == suffix_total(pre));
        }
    }

    /// Opens a new, empty level.
    fn add_level(&mut self)
        requires
            old(self).wf(),
        ensures
            final(self).wf(),
            final(self)@.labels.len() == old(self)@.labels.len() + 1,
            final(self)@.labels[final(self)@.labels.len() - 1].len() == 0,
            forall|l: int|
                0 <= l < old(self)@.labels.len() ==> final(self)@.labels[l] == old(self)@.labels[l],
            final(self)@.dense_fields() == old(self)@.dense_fields(),
            final(self)@.include_dense == old(self)@.include_dense,
            final(self)@.sparse_dense_ratio == old(self)@.sparse_dense_ratio,
            suffix_total(final(self)@) == suffix_total(old(self)@),
    {
        let ghost pre = self@;
        self.labels.push(Vec::new());
        let mut child_words: Vec<word_t> = Vec::new();
        child_words.push(0);
        let mut louds_words: Vec<word_t> = Vec::new();
        louds_words.push(0);
        let mut term_words: Vec<word_t> = Vec::new();
        term_words.push(0);
        proof {
            assert(louds_words@ =~= seq![0u64]);
            assert(term_words@ =~= seq![0u64]);
        }
        self.child_indicator_bits.push(child_words);
        self.louds_bits.push(louds_words);
        self.terminator_bits.push(term_words);
        self.suffixes.push(Vec::new());
        self.suffix_counts.push(0);
        self.node_counts.push(0);
        self.is_last_item_terminator.push(false);
        proof {
            let h = pre.labels.len() as int;
            assert(self@.labels =~~= pre.labels.push(Seq::empty()));
            assert(self@.child_indicator_bits =~~= pre.child_indicator_bits.push(seq![0u64]));
            assert(self@.louds_bits =~~= pre.louds_bits.push(seq![0u64]));
            assert(self@.terminator_bits =~~= pre.terminator_bits.push(seq![0u64]));
            assert(self@.suffixes =~~= pre.suffixes.push(Seq::empty()));
            assert(count_ones(packed_bits(seq![0u64], 0)) == 0) by {
                assert(packed_bits(seq![0u64], 0) =~= Seq::<bool>::empty());
            }
            assert forall|i: int| 0 <= i < 64 implies !packed_bit(seq![0u64], i) by {
                crate::bitvector::lemma_zero_word_bit((i % 64) as u64);
            }
            assert(level_louds_ok(Seq::empty(), seq![0u64], 0));
            assert(self@.suffix_counts =~= pre.suffix_counts.push(0));
            lemma_total_bits_congruent(
                self@.suffix_counts,
                pre.suffix_counts,
                0,
                pre.labels.len() as int,
            );
            assert(suffix_total(self@) == suffix_total(pre));
            assert forall|l: int| 0 <= l < self@.labels.len() implies level_louds_ok(
                self@.labels[l],
                #[trigger] self@.louds_bits[l],
                self@.node_counts[l],
            ) by {
                if l < h {
                    assert(self@.louds_bits[l] == pre.louds_bits[l]);
                }
            }
            assert(self.wf());
        }
    }

    /// Grows the child and LOUDS word arrays when the level's label count
    /// crosses a word boundary.
    fn move_to_next_item_slot(&mut self, level: level_t)
        requires
            level < old(self)@.labels.len(),
            old(self)@.labels[level as int].len() >= 1,
            // the word arrays lag one slot behind right after a label push
            old(self)@.child_indicator_bits[level as int].len() == (old(self)@.labels[level as int].len()
                - 1) as int / 64 + 1,
            old(self)@.louds_bits[level as int].len() == (old(self)@.labels[level as int].len()
                - 1) as int / 64 + 1,
            old(self)@.terminator_bits[level as int].len() == (old(self)@.labels[level as int].len()
                - 1) as int / 64 + 1,
            forall|l: int|
                0 <= l < old(self)@.labels.len() && l != level ==> (
                #[trigger] old(self)@.child_indicator_bits[l]).len() == old(self)@.labels[l].len()
                    as int / 64 + 1,
            forall|l: int|
                0 <= l < old(self)@.labels.len() && l != level ==> (
                #[trigger] old(self)@.terminator_bits[l]).len() == old(self)@.labels[l].len()
                    as int / 64 + 1,
            forall|l: int|
                0 <= l < old(self)@.labels.len() && l != level ==> (
                #[trigger] old(self)@.louds_bits[l]).len() == old(self)@.labels[l].len() as int / 64
                    + 1,
            old(self)@.child_indicator_bits.len() == old(self)@.labels.len(),
            old(self)@.louds_bits.len() == old(self)@.labels.len(),
            old(self)@.terminator_bits.len() == old(self)@.labels.len(),
            old(self)@.suffixes.len() == old(self)@.labels.len(),
            old(self)@.suffix_counts.len() == old(self)@.labels.len(),
            old(self)@.node_counts.len() == old(self)@.labels.len(),
            old(self)@.is_last_item_terminator.len() == old(self)@.labels.len(),
            old(self)@.hash_suffix_len == 0,
            old(self)@.real_suffix_len == 0,
            forall|l: int|
                0 <= l < old(self)@.labels.len() ==> level_louds_ok(
                    old(self)@.labels[l],
                    #[trigger] old(self)@.louds_bits[l],
                    old(self)@.node_counts[l],
                ),
        ensures
            final(self).wf(),
            final(self)@.labels == old(self)@.labels,
            final(self)@.suffix_counts == old(self)@.suffix_counts,
            final(self)@.is_last_item_terminator == old(self)@.is_last_item_terminator,
            final(self)@.dense_fields() == old(self)@.dense_fields(),
            final(self)@.include_dense == old(self)@.include_dense,
            final(self)@.sparse_dense_ratio == old(self)@.sparse_dense_ratio,
    {
        let num_items = self.get_num_items(level);
        let ghost pre = self@;
        if num_items % K_WORD_SIZE == 0 {
            self.child_indicator_bits[level].push(0);
            self.louds_bits[level].push(0);
            self.terminator_bits[level].push(0);
            proof {
                let li = level as int;
                let len = pre.labels[li].len() as int;
                vstd::arithmetic::div_mod::lemma_fundamental_div_mod(len, 64);
                vstd::arithmetic::div_mod::lemma_fundamental_div_mod_converse(
                    len - 1,
                    64,
                    len / 64 - 1,
                    63,
                );
                lemma_level_words_cover(len - 1);
                assert(self@.labels =~~= pre.labels);
                assert(self@.child_indicator_bits[li] =~= pre.child_indicator_bits[li].push(0u64));
                assert(self@.louds_bits[li] =~= pre.louds_bits[li].push(0u64));
                assert(self@.terminator_bits[li] =~= pre.terminator_bits[li].push(0u64));
                assert forall|l: int|
                    0 <= l < pre.child_indicator_bits.len() && l != li implies
                    self@.child_indicator_bits[l] == pre.child_indicator_bits[l] by {}
                assert forall|l: int| 0 <= l < pre.louds_bits.len() && l != li implies
                    self@.louds_bits[l] == pre.louds_bits[l] by {}
                assert forall|l: int| 0 <= l < pre.terminator_bits.len() && l != li implies
                    self@.terminator_bits[l] == pre.terminator_bits[l] by {}
                assert((len - 1) / 64 == len / 64 - 1);
                assert(self@.child_indicator_bits[li].len() == len / 64 + 1);
                assert(self@.louds_bits[li].len() == len / 64 + 1);
                assert(self@.terminator_bits[li].len() == len / 64 + 1);
                assert forall|l: int| 0 <= l < self@.labels.len() implies (
                #[trigger] self@.child_indicator_bits[l]).len() == self@.labels[l].len() as int
                    / 64 + 1 by {
                    if l != li {
                        assert(self@.child_indicator_bits[l] == pre.child_indicator_bits[l]);
                        assert(self@.labels[l] == pre.labels[l]);
                    }
                }
                assert forall|l: int| 0 <= l < self@.labels.len() implies (
                #[trigger] self@.louds_bits[l]).len() == self@.labels[l].len() as int / 64
                    + 1 by {
                    if l != li {
                        assert(self@.louds_bits[l] == pre.louds_bits[l]);
                        assert(self@.labels[l] == pre.labels[l]);
                    }
                }
                assert forall|l: int| 0 <= l < self@.labels.len() implies (
                #[trigger] self@.terminator_bits[l]).len() == self@.labels[l].len() as int / 64
                    + 1 by {
                    if l != li {
                        assert(self@.terminator_bits[l] == pre.terminator_bits[l]);
                        assert(self@.labels[l] == pre.labels[l]);
                    }
                }
                lemma_packed_bits_extend(pre.louds_bits[li], self@.louds_bits[li], pre.labels[li].len());
                assert forall|l: int| 0 <= l < self@.labels.len() implies level_louds_ok(
                    self@.labels[l],
                    #[trigger] self@.louds_bits[l],
                    self@.node_counts[l],
                ) by {
                    if l != li {
                        assert(self@.louds_bits[l] == pre.louds_bits[l]);
                        assert(level_louds_ok(pre.labels[l], pre.louds_bits[l], pre.node_counts[l]));
                    } else {
                        assert(packed_bits(self@.louds_bits[l], self@.labels[l].len())
                            == packed_bits(pre.louds_bits[li], pre.labels[li].len()));
                        if pre.labels[li].len() > 0 {
                            assert(packed_bit(self@.louds_bits[l], 0) == packed_bit(
                                pre.louds_bits[li],
                                0,
                            ));
                        }
                        assert forall|i: int|
                            self@.labels[l].len() <= i < self@.louds_bits[l].len() * 64 implies !(
                        #[trigger] packed_bit(self@.louds_bits[l], i)) by {
                            if i < pre.louds_bits[li].len() * 64 {
                                assert(packed_bit(self@.louds_bits[l], i) == packed_bit(
                                    pre.louds_bits[li],
                                    i,
                                ));
                            } else {
                                vstd::arithmetic::div_mod::lemma_fundamental_div_mod_converse(
                                    i,
                                    64,
                                    pre.louds_bits[li].len() as int,
                                    i - pre.louds_bits[li].len() * 64,
                                );
                                assert(i / 64 == pre.louds_bits[li].len());
                                crate::bitvector::lemma_zero_word_bit((i % 64) as u64);
                            }
                        }
                    }
                }
                assert(self.wf());
            }
        } else {
            proof {
                let li = level as int;
                let len = pre.labels[li].len() as int;
                vstd::arithmetic::div_mod::lemma_fundamental_div_mod(len, 64);
                vstd::arithmetic::div_mod::lemma_fundamental_div_mod_converse(
                    len - 1,
                    64,
                    len / 64,
                    len % 64 - 1,
                );
                assert(self@ == pre);
                assert(self.wf());
            }
        }
    }

    /// Records one key's suffix slot at `level`.
    fn insert_suffix(&mut self, level: level_t) -> (ok: bool)
        requires
            old(self).wf(),
            1 <= level <= old(self)@.labels.len(),
        ensures
            final(self).wf(),
            final(self)@.dense_fields() == old(self)@.dense_fields(),
            final(self)@.include_dense == old(self)@.include_dense,
            final(self)@.sparse_dense_ratio == old(self)@.sparse_dense_ratio,
            ok ==> suffix_total(final(self)@) == suffix_total(old(self)@) + 1,
    {
        if level >= self.get_tree_height() {
            self.add_level();
        }
        let suffix_word = crate::suffix::BitvectorSuffix::construct_suffix(self.suffix_type);
        self.store_suffix(level, suffix_word)
    }

    /// Appends one suffix entry's bits (none are packed, since whole tails
    /// are stored verbatim) and bumps the level's suffix count.
    fn store_suffix(&mut self, level: level_t, suffix: word_t) -> (ok: bool)
        requires
            old(self).wf(),
            1 <= level <= old(self)@.labels.len(),
        ensures
            final(self).wf(),
            final(self)@.dense_fields() == old(self)@.dense_fields(),
            final(self)@.include_dense == old(self)@.include_dense,
            final(self)@.sparse_dense_ratio == old(self)@.sparse_dense_ratio,
            ok ==> suffix_total(final(self)@) == suffix_total(old(self)@) + 1,
    {
        let ghost pre = self@;
        let suffix_len = self.get_suffix_len();
        let pos: position_t = self.suffix_counts[level - 1] * suffix_len;
        // whole tails are stored verbatim, so the entry occupies no bits;
        // only a fresh level's word array gets its first empty word
        if pos == 0 && self.suffixes[level - 1].len() == 0 {
            self.suffixes[level - 1].push(0);
        }
        let count = self.suffix_counts[level - 1];
        let next = match count.checked_add(1) {
            Some(v) => v,
            None => {
                proof {
                    lemma_builder_suffix_update(pre, self@, level - 1);
                }
                return false;
            },
        };
        self.suffix_counts[level - 1] = next;
        proof {
            lemma_builder_suffix_update(pre, self@, level - 1);
            assert(self@.suffix_counts =~= pre.suffix_counts.update(level - 1, next));
            lemma_total_bits_update(
                pre.suffix_counts,
                0,
                pre.labels.len() as int,
                level - 1,
                next,
            );
            assert(suffix_total(self@) == suffix_total(pre) + 1);
            assert(suffix_total(pre) == suffix_total(old(self)@));
        }
        true
    }

    /// Advances the dense/sparse cutoff while the dense encoding's memory
    /// cost, scaled by the configured ratio, stays below the sparse cost;
    /// the chosen level is exactly what the stated cost model picks. The
    /// ratio is a memory policy and is meant to leave search answers
    /// unchanged.
    fn determine_cutoff_level(&mut self)
        requires
            old(self).wf(),
        ensures
            final(self).wf(),
            final(self)@ == (BuilderV {
                sparse_start_level: final(self)@.sparse_start_level,
                ..old(self)@
            }),
            final(self)@.sparse_start_level <= final(self)@.labels.len(),
            final(self)@.sparse_start_level == spec_cutoff_level(old(self)@, 0),
    {
        let mut cutoff_level: level_t = 0;
        let mut dense_mem: u64 = self.compute_dense_mem(cutoff_level);
        let mut sparse_mem: u64 = self.compute_sparse_mem(cutoff_level);
        let height = self.get_tree_height();
        while cutoff_level < height && sat_mul_u64(dense_mem, self.sparse_dense_ratio as u64)
            < sparse_mem
            invariant
                self.wf(),
                cutoff_level <= height,
                height == self@.labels.len(),
                self@ == old(self)@,
                dense_mem == spec_dense_mem(self@, cutoff_level as int),
                sparse_mem == spec_sparse_mem(self@, cutoff_level as int),
                spec_cutoff_level(self@, 0) == spec_cutoff_level(self@, cutoff_level as int),
            decreases height - cutoff_level,
        {
            cutoff_level = cutoff_level + 1;
            dense_mem = self.compute_dense_mem(cutoff_level);
            sparse_mem = self.compute_sparse_mem(cutoff_level);
        }
        self.sparse_start_level = cutoff_level;
    }

    /// Approximate dense memory cost of levels below `downto_level`:
    /// two 256-bit bitmaps per node plus a small rank overhead.
    fn compute_dense_mem(&self, downto_level: level_t) -> (r: u64)
        requires
            self.wf(),
            downto_level <= self@.labels.len(),
        ensures
            r == spec_dense_mem(self@, downto_level as int),
    {
        let mut mem: u64 = 0;
        let mut level: level_t = 0;
        while level < downto_level
            invariant
                self.wf(),
                level <= downto_level,
                downto_level <= self@.labels.len(),
                spec_dense_mem_from(self@, downto_level as int, 0, 0) == spec_dense_mem_from(
                    self@,
                    downto_level as int,
                    level as int,
                    mem as int,
                ),
            decreases downto_level - level,
        {
            let nc = self.node_counts[level] as u64;
            mem = mem.saturating_add(sat_mul_u64(nc, 2 * K_FANOUT as u64));
            if level > 0 {
                let prev = self.node_counts[level - 1] as u64;
                mem = mem.saturating_add(prev / 8 + 1);
            }
            level = level + 1;
        }
        mem
    }

    /// Approximate sparse memory cost of levels at and above `start_level`:
    /// one byte per label plus two marker bits.
    fn compute_sparse_mem(&self, start_level: level_t) -> (r: u64)
        requires
            self.wf(),
        ensures
            r == spec_sparse_mem(self@, start_level as int),
    {
        let mut mem: u64 = 0;
        let mut level = start_level;
        let height = self.get_tree_height();
        while level < height
            invariant
                self.wf(),
                level <= height || level == start_level,
                height == self@.labels.len(),
                spec_sparse_mem_from(self@, start_level as int, 0) == spec_sparse_mem_from(
                    self@,
                    level as int,
                    mem as int,
                ),
            decreases height - level,
        {
            let num_items = self.labels[level].len() as u64;
            mem = mem.saturating_add(num_items.saturating_add(sat_mul_u64(2, num_items) / 8 + 1));
            level = level + 1;
        }
        mem
    }

    /// Whether the slot `pos` of `level` is a terminator: it was written
    /// for a key that ended there, not for a label byte of a longer key.
    fn is_terminator(&self, level: level_t, pos: position_t) -> (r: bool)
        requires
            self.wf(),
            level < self@.labels.len(),
            pos < self@.labels[level as int].len(),
        ensures
            r == packed_bit(self@.terminator_bits[level as int], pos as int),
    {
        proof {
            lemma_level_words_cover(self@.labels[level as int].len() as int - 1);
            assert(pos < self@.terminator_bits[level as int].len() * 64);
        }
        read_packed_bit(&self.terminator_bits[level], pos)
    }

    /// Whether the slot `pos` of `level` opens a node.
    fn is_start_of_node(&self, level: level_t, pos: position_t) -> (r: bool)
        requires
            self.wf(),
            level < self@.labels.len(),
            pos < self@.labels[level as int].len(),
        ensures
            r == packed_bit(self@.louds_bits[level as int], pos as int),
    {
        proof {
            assert(pos < self@.louds_bits[level as int].len() * 64);
        }
        read_packed_bit(&self.louds_bits[level], pos)
    }

    /// Fills the dense bitmaps for every level below the cutoff. Returns
    /// false when a level is too large for the dense addressing.
    fn build_dense(&mut self) -> (ok: bool)
        requires
            old(self).wf(),
            old(self)@.sparse_start_level <= old(self)@.labels.len(),
            old(self)@.bitmap_labels.len() == 0,
            old(self)@.bitmap_child_indicator_bits.len() == 0,
            old(self)@.prefixkey_indicator_bits.len() == 0,
        ensures
            final(self).wf(),
            ok ==> final(self)@.wf_dense(),
            final(self)@.include_dense == old(self)@.include_dense,
            final(self)@.labels == old(self)@.labels,
            final(self)@.suffix_counts == old(self)@.suffix_counts,
            final(self)@.sparse_start_level == old(self)@.sparse_start_level,
            old(self)@.sparse_start_level == 0 ==> ok,
            // the filled bitmaps mean what the sparse arrays say
            ok ==> spec_dense_content(final(self)@),
    {
        let ssl = self.sparse_start_level;
        let mut level: level_t = 0;
        while level < ssl
            invariant
                self.wf(),
                level <= ssl,
                ssl == self@.sparse_start_level,
                ssl == old(self)@.sparse_start_level,
                ssl <= self@.labels.len(),
                self@.include_dense == old(self)@.include_dense,
                self@.labels == old(self)@.labels,
                self@.node_counts == old(self)@.node_counts,
                self@.louds_bits == old(self)@.louds_bits,
                self@.child_indicator_bits == old(self)@.child_indicator_bits,
                self@.terminator_bits == old(self)@.terminator_bits,
                self@.suffixes == old(self)@.suffixes,
                self@.suffix_counts == old(self)@.suffix_counts,
                self@.is_last_item_terminator == old(self)@.is_last_item_terminator,
                self@.bitmap_labels.len() == level,
                self@.bitmap_child_indicator_bits.len() == level,
                self@.prefixkey_indicator_bits.len() == level,
                forall|l: int|
                    0 <= l < level ==> (#[trigger] self@.bitmap_labels[l]).len() == 4
                        * self@.node_counts[l],
                forall|l: int|
                    0 <= l < level ==> (#[trigger] self@.bitmap_child_indicator_bits[l]).len() == 4
                        * self@.node_counts[l],
                forall|l: int|
                    0 <= l < level ==> self@.node_counts[l] <= (
                    #[trigger] self@.prefixkey_indicator_bits[l]).len() * 64,
                forall|l: int, i: int|
                    0 <= l < level && 0 <= i < 256 * self@.node_counts[l] ==> (#[trigger] packed_bit(
                        self@.bitmap_labels[l],
                        i,
                    )) == spec_dense_label_expected(
                        self@.labels[l],
                        self@.louds_bits[l],
                        self@.terminator_bits[l],
                        i,
                    ),
                forall|l: int, i: int|
                    0 <= l < level && 0 <= i < 256 * self@.node_counts[l] ==> (#[trigger] packed_bit(
                        self@.bitmap_child_indicator_bits[l],
                        i,
                    )) == spec_dense_child_expected(
                        self@.labels[l],
                        self@.louds_bits[l],
                        self@.terminator_bits[l],
                        self@.child_indicator_bits[l],
                        i,
                    ),
                forall|l: int, n: int|
                    0 <= l < level && 0 <= n < self@.node_counts[l] ==> (#[trigger] packed_bit(
                        self@.prefixkey_indicator_bits[l],
                        n,
                    )) == spec_dense_prefix_expected(
                        self@.labels[l],
                        self@.louds_bits[l],
                        self@.terminator_bits[l],
                        n,
                    ),
            decreases ssl - level,
        {
            let ghost at_entry = self@;
            if !self.fill_dense_level(level) {
                return false;
            }
            proof {
                assert forall|l: int, i: int|
                    0 <= l < level + 1 && 0 <= i < 256 * self@.node_counts[l] implies (
                #[trigger] packed_bit(self@.bitmap_labels[l], i)) == spec_dense_label_expected(
                    self@.labels[l],
                    self@.louds_bits[l],
                    self@.terminator_bits[l],
                    i,
                ) by {
                    if l < level {
                        assert(self@.bitmap_labels[l] == at_entry.bitmap_labels[l]);
                    }
                }
                assert forall|l: int, i: int|
                    0 <= l < level + 1 && 0 <= i < 256 * self@.node_counts[l] implies (
                #[trigger] packed_bit(
                    self@.bitmap_child_indicator_bits[l],
                    i,
                )) == spec_dense_child_expected(
                    self@.labels[l],
                    self@.louds_bits[l],
                    self@.terminator_bits[l],
                    self@.child_indicator_bits[l],
                    i,
                ) by {
                    if l < level {
                        assert(self@.bitmap_child_indicator_bits[l]
                            == at_entry.bitmap_child_indicator_bits[l]);
                    }
                }
                assert forall|l: int, n: int|
                    0 <= l < level + 1 && 0 <= n < self@.node_counts[l] implies (
                #[trigger] packed_bit(
                    self@.prefixkey_indicator_bits[l],
                    n,
                )) == spec_dense_prefix_expected(
                    self@.labels[l],
                    self@.louds_bits[l],
                    self@.terminator_bits[l],
                    n,
                ) by {
                    if l < level {
                        assert(self@.prefixkey_indicator_bits[l]
                            == at_entry.prefixkey_indicator_bits[l]);
                    }
                }
            }
            level = level + 1;
        }
        true
    }

    /// Fills one level's dense bitmaps.
    fn fill_dense_level(&mut self, level: level_t) -> (ok: bool)
        requires
            old(self).wf(),
            level < old(self)@.labels.len(),
            old(self)@.bitmap_labels.len() == level,
            old(self)@.bitmap_child_indicator_bits.len() == level,
            old(self)@.prefixkey_indicator_bits.len() == level,
        ensures
            final(self).wf(),
            final(self)@ == (BuilderV {
                bitmap_labels: final(self)@.bitmap_labels,
                bitmap_child_indicator_bits: final(self)@.bitmap_child_indicator_bits,
                prefixkey_indicator_bits: final(self)@.prefixkey_indicator_bits,
                ..old(self)@
            }),
            ok ==> {
                &&& final(self)@.bitmap_labels.len() == level + 1
                &&& final(self)@.bitmap_child_indicator_bits.len() == level + 1
                &&& final(self)@.prefixkey_indicator_bits.len() == level + 1
                &&& final(self)@.bitmap_labels[level as int].len() == 4 * final(self)@.node_counts[level as int]
                &&& final(self)@.bitmap_child_indicator_bits[level as int].len() == 4 * final(self)@.node_counts[level as int]
                &&& final(self)@.node_counts[level as int] <= final(self)@.prefixkey_indicator_bits[level as int].len() * 64
                &&& forall|l: int|
                    0 <= l < level ==> final(self)@.bitmap_labels[l] == old(self)@.bitmap_labels[l]
                &&& forall|l: int|
                    0 <= l < level ==> final(self)@.bitmap_child_indicator_bits[l] == old(self)@.bitmap_child_indicator_bits[l]
                &&& forall|l: int|
                    0 <= l < level ==> final(self)@.prefixkey_indicator_bits[l] == old(self)@.prefixkey_indicator_bits[l]
                &&& forall|i: int|
                    0 <= i < 256 * final(self)@.node_counts[level as int] ==> (#[trigger] packed_bit(
                        final(self)@.bitmap_labels[level as int],
                        i,
                    )) == spec_dense_label_expected(
                        old(self)@.labels[level as int],
                        old(self)@.louds_bits[level as int],
                        old(self)@.terminator_bits[level as int],
                        i,
                    )
                &&& forall|i: int|
                    0 <= i < 256 * final(self)@.node_counts[level as int] ==> (#[trigger] packed_bit(
                        final(self)@.bitmap_child_indicator_bits[level as int],
                        i,
                    )) == spec_dense_child_expected(
                        old(self)@.labels[level as int],
                        old(self)@.louds_bits[level as int],
                        old(self)@.terminator_bits[level as int],
                        old(self)@.child_indicator_bits[level as int],
                        i,
                    )
                &&& forall|n: int|
                    0 <= n < final(self)@.node_counts[level as int] ==> (#[trigger] packed_bit(
                        final(self)@.prefixkey_indicator_bits[level as int],
                        n,
                    )) == spec_dense_prefix_expected(
                        old(self)@.labels[level as int],
                        old(self)@.louds_bits[level as int],
                        old(self)@.terminator_bits[level as int],
                        n,
                    )
            },
    {
        let node_count = self.node_counts[level];
        if node_count > usize::MAX / 256 {
            // a dense level this large cannot be bit-addressed
            let ghost pre0 = self@;
            self.bitmap_labels.push(Vec::new());
            self.bitmap_child_indicator_bits.push(Vec::new());
            self.prefixkey_indicator_bits.push(Vec::new());
            proof {
                lemma_builder_dense_push(pre0, self@, level as int);
            }
            return false;
        }
        let mut label_words: Vec<word_t> = Vec::new();
        let mut child_words: Vec<word_t> = Vec::new();
        let mut prefix_words: Vec<word_t> = Vec::new();
        let mut nc: position_t = 0;
        while nc < node_count
            invariant
                nc <= node_count,
                node_count <= usize::MAX / 256,
                label_words@.len() == 4 * nc,
                child_words@.len() == 4 * nc,
                nc <= prefix_words@.len() * 64,
                prefix_words@.len() == if nc == 0 {
                    0int
                } else {
                    (nc - 1) as int / 64 + 1
                },
                forall|j: int| 0 <= j < label_words@.len() ==> label_words@[j] == 0u64,
                forall|j: int| 0 <= j < child_words@.len() ==> child_words@[j] == 0u64,
                forall|j: int| 0 <= j < prefix_words@.len() ==> prefix_words@[j] == 0u64,
            decreases node_count - nc,
        {
            label_words.push(0);
            label_words.push(0);
            label_words.push(0);
            label_words.push(0);
            child_words.push(0);
            child_words.push(0);
            child_words.push(0);
            child_words.push(0);
            if nc % K_WORD_SIZE == 0 {
                prefix_words.push(0);
            }
            nc = nc + 1;
        }
        let ghost pre = self@;
        self.bitmap_labels.push(label_words);
        self.bitmap_child_indicator_bits.push(child_words);
        self.prefixkey_indicator_bits.push(prefix_words);
        proof {
            lemma_builder_dense_push(pre, self@, level as int);
            assert(self@.bitmap_labels[level as int] =~= label_words@);
            assert(self@.bitmap_child_indicator_bits[level as int] =~= child_words@);
            assert(self@.prefixkey_indicator_bits[level as int] =~= prefix_words@);
        }
        let ghost lab = self@.labels[level as int];
        let ghost lou = self@.louds_bits[level as int];
        let ghost ter = self@.terminator_bits[level as int];
        let ghost chi = self@.child_indicator_bits[level as int];
        proof {
            lemma_packed_zero_words(label_words@);
            lemma_packed_zero_words(child_words@);
            lemma_packed_zero_words(prefix_words@);
        }
        let num_items = self.get_num_items(level);
        if num_items == 0 {
            proof {
                assert(packed_bits(
                    self@.louds_bits[level as int],
                    self@.labels[level as int].len(),
                ) =~= Seq::<bool>::empty());
                assert(self@.node_counts[level as int] == 0);
            }
            return true;
        }
        let ghost s = packed_bits(self@.louds_bits[level as int], self@.labels[level as int].len());
        let mut node_num: position_t = 0;
        proof {
            lemma_count_ones_take_succ(s, 0);
            assert(s.take(0) =~= Seq::<bool>::empty());
            assert(s[0]);
            assert(count_ones(s.take(1)) == 1);
            crate::bitvector::lemma_count_ones_monotone(
                s,
                1,
                self@.labels[level as int].len() as int,
            );
            assert(s.take(self@.labels[level as int].len() as int) =~= s);
            assert(self@.node_counts[level as int] >= 1);
            assert(spec_slot_node(lou, lab.len(), 0) == 0);
            assert(s[0] == packed_bit(lou, 0));
        }
        if self.is_terminator(level, 0) {
            let ghost before = self@;
            proof {
                assert(before.node_counts[level as int]
                    <= before.prefixkey_indicator_bits[level as int].len() * 64);
            }
            set_level_bit(&mut self.prefixkey_indicator_bits, level, 0);
            proof {
                lemma_builder_dense_update(before, self@, level as int);
                assert(spec_slot_terminal(lou, ter, 0));
                let nc_l = self@.node_counts[level as int] as int;
                assert forall|n: int| 0 <= n < nc_l implies (packed_bit(
                    self@.prefixkey_indicator_bits[level as int],
                    n,
                ) == (exists|p: int|
                    #[trigger] spec_dense_prefix_source(lab, lou, ter, p, n) && p < 1)) by {
                    if n == 0 {
                        assert(spec_dense_prefix_source(lab, lou, ter, 0, 0));
                        assert(packed_bit(self@.prefixkey_indicator_bits[level as int], 0));
                    } else {
                        assert(!packed_bit(before.prefixkey_indicator_bits[level as int], n));
                        assert(!packed_bit(self@.prefixkey_indicator_bits[level as int], n));
                        if exists|p: int|
                            #[trigger] spec_dense_prefix_source(lab, lou, ter, p, n) && p < 1 {
                            let p = choose|p: int|
                                #[trigger] spec_dense_prefix_source(lab, lou, ter, p, n) && p < 1;
                            assert(p == 0);
                            assert(false);
                        }
                    }
                }
                assert forall|i: int| 0 <= i < 256 * self@.node_counts[level as int] implies (
                !packed_bit(self@.bitmap_labels[level as int], i) && !(exists|p: int|
                    #[trigger] spec_dense_label_source(lab, lou, ter, p, i) && p < 1)) by {
                    if exists|p: int|
                        #[trigger] spec_dense_label_source(lab, lou, ter, p, i) && p < 1 {
                        let p = choose|p: int|
                            #[trigger] spec_dense_label_source(lab, lou, ter, p, i) && p < 1;
                        assert(p == 0);
                        assert(!spec_slot_terminal(lou, ter, 0));
                        assert(false);
                    }
                }
                assert forall|i: int| 0 <= i < 256 * self@.node_counts[level as int] implies (
                !packed_bit(self@.bitmap_child_indicator_bits[level as int], i) && !(exists|p: int|
                    #[trigger] spec_dense_label_source(lab, lou, ter, p, i) && packed_bit(chi, p)
                        && p < 1)) by {
                    if exists|p: int|
                        #[trigger] spec_dense_label_source(lab, lou, ter, p, i) && packed_bit(
                            chi,
                            p,
                        ) && p < 1 {
                        let p = choose|p: int|
                            #[trigger] spec_dense_label_source(lab, lou, ter, p, i) && packed_bit(
                                chi,
                                p,
                            ) && p < 1;
                        assert(p == 0);
                        assert(!spec_slot_terminal(lou, ter, 0));
                        assert(false);
                    }
                }
            }
        } else {
            let ghost before = self@;
            self.set_label_and_child_indicator_bitmap(level, node_num, 0);
            proof {
                assert(!spec_slot_terminal(lou, ter, 0));
                let i0 = 0 * 256 + lab[0] as int;
                assert(spec_dense_label_source(lab, lou, ter, 0, i0));
                let nc_l = self@.node_counts[level as int] as int;
                assert(256 * nc_l >= 256);
                assert forall|i: int| 0 <= i < 256 * nc_l implies (packed_bit(
                    self@.bitmap_labels[level as int],
                    i,
                ) == (exists|p: int|
                    #[trigger] spec_dense_label_source(lab, lou, ter, p, i) && p < 1)) by {
                    if i == i0 {
                        assert(packed_bit(self@.bitmap_labels[level as int], i));
                    } else {
                        assert(!packed_bit(before.bitmap_labels[level as int], i));
                        assert(!packed_bit(self@.bitmap_labels[level as int], i));
                        if exists|p: int|
                            #[trigger] spec_dense_label_source(lab, lou, ter, p, i) && p < 1 {
                            let p = choose|p: int|
                                #[trigger] spec_dense_label_source(lab, lou, ter, p, i) && p < 1;
                            assert(p == 0);
                            assert(false);
                        }
                    }
                }
                assert forall|i: int| 0 <= i < 256 * nc_l implies (packed_bit(
                    self@.bitmap_child_indicator_bits[level as int],
                    i,
                ) == (exists|p: int|
                    #[trigger] spec_dense_label_source(lab, lou, ter, p, i) && packed_bit(chi, p)
                        && p < 1)) by {
                    if i == i0 && packed_bit(chi, 0) {
                        assert(packed_bit(self@.bitmap_child_indicator_bits[level as int], i));
                        assert(spec_dense_label_source(lab, lou, ter, 0, i) && packed_bit(chi, 0)
                            && 0 < 1);
                    } else {
                        if exists|p: int|
                            #[trigger] spec_dense_label_source(lab, lou, ter, p, i) && packed_bit(
                                chi,
                                p,
                            ) && p < 1 {
                            let p = choose|p: int|
                                #[trigger] spec_dense_label_source(lab, lou, ter, p, i)
                                    && packed_bit(chi, p) && p < 1;
                            assert(p == 0);
                            assert(false);
                        }
                        assert(!packed_bit(before.bitmap_child_indicator_bits[level as int], i));
                        assert(!packed_bit(self@.bitmap_child_indicator_bits[level as int], i));
                    }
                }
                assert forall|n: int| 0 <= n < nc_l implies (!packed_bit(
                    self@.prefixkey_indicator_bits[level as int],
                    n,
                ) && !(exists|p: int|
                    #[trigger] spec_dense_prefix_source(lab, lou, ter, p, n) && p < 1)) by {
                    if exists|p: int|
                        #[trigger] spec_dense_prefix_source(lab, lou, ter, p, n) && p < 1 {
                        let p = choose|p: int|
                            #[trigger] spec_dense_prefix_source(lab, lou, ter, p, n) && p < 1;
                        assert(p == 0);
                        assert(false);
                    }
                }
            }
        }
        let mut pos: position_t = 1;
        while pos < num_items
            invariant
                self.wf(),
                1 <= pos <= num_items,
                level < self@.labels.len(),
                num_items == self@.labels[level as int].len(),
                s == packed_bits(self@.louds_bits[level as int], self@.labels[level as int].len()),
                node_num + 1 == count_ones(s.take(pos as int)),
                node_num < self@.node_counts[level as int],
                self@ == (BuilderV {
                    bitmap_labels: self@.bitmap_labels,
                    bitmap_child_indicator_bits: self@.bitmap_child_indicator_bits,
                    prefixkey_indicator_bits: self@.prefixkey_indicator_bits,
                    ..pre
                }),
                self@.bitmap_labels.len() == level + 1,
                self@.bitmap_child_indicator_bits.len() == level + 1,
                self@.prefixkey_indicator_bits.len() == level + 1,
                self@.bitmap_labels[level as int].len() == 4 * self@.node_counts[level as int],
                self@.bitmap_child_indicator_bits[level as int].len() == 4
                    * self@.node_counts[level as int],
                self@.node_counts[level as int] <= self@.prefixkey_indicator_bits[level as int].len()
                    * 64,
                self@.node_counts[level as int] <= usize::MAX / 256,
                forall|l: int| 0 <= l < level ==> self@.bitmap_labels[l] == pre.bitmap_labels[l],
                forall|l: int|
                    0 <= l < level ==> self@.bitmap_child_indicator_bits[l]
                        == pre.bitmap_child_indicator_bits[l],
                forall|l: int|
                    0 <= l < level ==> self@.prefixkey_indicator_bits[l]
                        == pre.prefixkey_indicator_bits[l],
                lab == self@.labels[level as int],
                lou == self@.louds_bits[level as int],
                ter == self@.terminator_bits[level as int],
                chi == self@.child_indicator_bits[level as int],
                forall|i: int|
                    0 <= i < 256 * self@.node_counts[level as int] ==> ((#[trigger] packed_bit(
                        self@.bitmap_labels[level as int],
                        i,
                    )) == (exists|p: int|
                        #[trigger] spec_dense_label_source(lab, lou, ter, p, i) && p < pos)),
                forall|i: int|
                    0 <= i < 256 * self@.node_counts[level as int] ==> ((#[trigger] packed_bit(
                        self@.bitmap_child_indicator_bits[level as int],
                        i,
                    )) == (exists|p: int|
                        #[trigger] spec_dense_label_source(lab, lou, ter, p, i) && packed_bit(
                            chi,
                            p,
                        ) && p < pos)),
                forall|n: int|
                    0 <= n < self@.node_counts[level as int] ==> ((#[trigger] packed_bit(
                        self@.prefixkey_indicator_bits[level as int],
                        n,
                    )) == (exists|p: int|
                        #[trigger] spec_dense_prefix_source(lab, lou, ter, p, n) && p < pos)),
            decreases num_items - pos,
        {
            let starts = self.is_start_of_node(level, pos);
            proof {
                lemma_count_ones_take_succ(s, pos as int);
                lemma_count_ones_le(s, self@.labels[level as int].len() as int);
                assert(s.take(self@.labels[level as int].len() as int) =~= s);
                crate::bitvector::lemma_count_ones_monotone(
                    s,
                    pos + 1,
                    self@.labels[level as int].len() as int,
                );
                assert(count_ones(s.take(pos + 1)) <= self@.node_counts[level as int]);
            }
            if starts {
                node_num = node_num + 1;
                if self.is_terminator(level, pos) {
                    let ghost before = self@;
                    proof {
                        assert(node_num < before.node_counts[level as int]);
                        assert(before.node_counts[level as int]
                            <= before.prefixkey_indicator_bits[level as int].len() * 64);
                    }
                    set_level_bit(&mut self.prefixkey_indicator_bits, level, node_num);
                    proof {
                        lemma_builder_dense_update(before, self@, level as int);
                        let nc_l = self@.node_counts[level as int] as int;
                        assert(spec_slot_node(lou, lab.len(), pos as int) == node_num);
                        assert(packed_bit(lou, pos as int));
                        assert(spec_slot_terminal(lou, ter, pos as int));
                        assert forall|n: int| 0 <= n < nc_l implies ((packed_bit(
                            self@.prefixkey_indicator_bits[level as int],
                            n,
                        )) == (exists|p: int|
                            #[trigger] spec_dense_prefix_source(lab, lou, ter, p, n) && p < pos
                                + 1)) by {
                            if n == node_num {
                                assert(spec_dense_prefix_source(
                                    lab,
                                    lou,
                                    ter,
                                    pos as int,
                                    n,
                                ) && pos < pos + 1);
                                assert(packed_bit(
                                    self@.prefixkey_indicator_bits[level as int],
                                    n,
                                ));
                            } else {
                                if exists|p: int|
                                    #[trigger] spec_dense_prefix_source(lab, lou, ter, p, n) && p
                                        < pos + 1 {
                                    let p = choose|p: int|
                                        #[trigger] spec_dense_prefix_source(lab, lou, ter, p, n)
                                            && p < pos + 1;
                                    assert(p != pos);
                                    assert(spec_dense_prefix_source(lab, lou, ter, p, n) && p
                                        < pos);
                                    assert(packed_bit(
                                        before.prefixkey_indicator_bits[level as int],
                                        n,
                                    ));
                                }
                                if packed_bit(before.prefixkey_indicator_bits[level as int], n) {
                                    lemma_prefix_source_widen(lab, lou, ter, n, pos as int, pos + 1);
                                }
                                assert(packed_bit(self@.prefixkey_indicator_bits[level as int], n)
                                    == packed_bit(
                                    before.prefixkey_indicator_bits[level as int],
                                    n,
                                ));
                            }
                        }
                        assert(self@.bitmap_labels[level as int] == before.bitmap_labels[
                            level as int]);
                        assert(self@.bitmap_child_indicator_bits[level as int]
                            == before.bitmap_child_indicator_bits[level as int]);
                        assert forall|i: int| 0 <= i < 256 * nc_l implies ((packed_bit(
                            self@.bitmap_labels[level as int],
                            i,
                        )) == (exists|p: int|
                            #[trigger] spec_dense_label_source(lab, lou, ter, p, i) && p < pos
                                + 1)) by {
                            if exists|p: int|
                                #[trigger] spec_dense_label_source(lab, lou, ter, p, i) && p < pos
                                    + 1 {
                                let p = choose|p: int|
                                    #[trigger] spec_dense_label_source(lab, lou, ter, p, i) && p
                                        < pos + 1;
                                assert(p != pos);
                                assert(spec_dense_label_source(lab, lou, ter, p, i) && p < pos);
                            }
                            if packed_bit(self@.bitmap_labels[level as int], i) {
                                lemma_label_source_widen(lab, lou, ter, i, pos as int, pos + 1);
                            }
                        }
                        assert forall|i: int| 0 <= i < 256 * nc_l implies ((packed_bit(
                            self@.bitmap_child_indicator_bits[level as int],
                            i,
                        )) == (exists|p: int|
                            #[trigger] spec_dense_label_source(lab, lou, ter, p, i) && packed_bit(
                                chi,
                                p,
                            ) && p < pos + 1)) by {
                            if exists|p: int|
                                #[trigger] spec_dense_label_source(lab, lou, ter, p, i)
                                    && packed_bit(chi, p) && p < pos + 1 {
                                let p = choose|p: int|
                                    #[trigger] spec_dense_label_source(lab, lou, ter, p, i)
                                        && packed_bit(chi, p) && p < pos + 1;
                                assert(p != pos);
                                assert(spec_dense_label_source(lab, lou, ter, p, i) && packed_bit(
                                    chi,
                                    p,
                                ) && p < pos);
                            }
                            if packed_bit(self@.bitmap_child_indicator_bits[level as int], i) {
                                lemma_child_source_widen(lab, lou, ter, chi, i, pos as int, pos + 1);
                            }
                        }
                    }
                    pos = pos + 1;
                    continue;
                }
            }
            let ghost before = self@;
            self.set_label_and_child_indicator_bitmap(level, node_num, pos);
            proof {
                let nc_l = self@.node_counts[level as int] as int;
                assert(spec_slot_node(lou, lab.len(), pos as int) == node_num);
                assert(!spec_slot_terminal(lou, ter, pos as int));
                let i0 = node_num * 256 + lab[pos as int] as int;
                assert(spec_dense_label_source(lab, lou, ter, pos as int, i0));
                vstd::arithmetic::mul::lemma_mul_inequality(node_num + 1, nc_l, 256);
                vstd::arithmetic::mul::lemma_mul_is_distributive_add_other_way(
                    256,
                    node_num as int,
                    1,
                );
                assert(i0 < 256 * nc_l);
                assert forall|i: int| 0 <= i < 256 * nc_l implies ((packed_bit(
                    self@.bitmap_labels[level as int],
                    i,
                )) == (exists|p: int|
                    #[trigger] spec_dense_label_source(lab, lou, ter, p, i) && p < pos + 1)) by {
                    if i == i0 {
                        assert(packed_bit(self@.bitmap_labels[level as int], i));
                        assert(spec_dense_label_source(lab, lou, ter, pos as int, i) && pos < pos
                            + 1);
                    } else {
                        if exists|p: int|
                            #[trigger] spec_dense_label_source(lab, lou, ter, p, i) && p < pos
                                + 1 {
                            let p = choose|p: int|
                                #[trigger] spec_dense_label_source(lab, lou, ter, p, i) && p < pos
                                    + 1;
                            assert(p != pos);
                            assert(spec_dense_label_source(lab, lou, ter, p, i) && p < pos);
                        }
                        if packed_bit(before.bitmap_labels[level as int], i) {
                            lemma_label_source_widen(lab, lou, ter, i, pos as int, pos + 1);
                        }
                        assert(packed_bit(self@.bitmap_labels[level as int], i) == packed_bit(
                            before.bitmap_labels[level as int],
                            i,
                        ));
                    }
                }
                assert forall|i: int| 0 <= i < 256 * nc_l implies ((packed_bit(
                    self@.bitmap_child_indicator_bits[level as int],
                    i,
                )) == (exists|p: int|
                    #[trigger] spec_dense_label_source(lab, lou, ter, p, i) && packed_bit(chi, p)
                        && p < pos + 1)) by {
                    if i == i0 && packed_bit(chi, pos as int) {
                        assert(packed_bit(self@.bitmap_child_indicator_bits[level as int], i));
                        assert(spec_dense_label_source(lab, lou, ter, pos as int, i) && packed_bit(
                            chi,
                            pos as int,
                        ) && pos < pos + 1);
                    } else {
                        if exists|p: int|
                            #[trigger] spec_dense_label_source(lab, lou, ter, p, i) && packed_bit(
                                chi,
                                p,
                            ) && p < pos + 1 {
                            let p = choose|p: int|
                                #[trigger] spec_dense_label_source(lab, lou, ter, p, i)
                                    && packed_bit(chi, p) && p < pos + 1;
                            assert(p != pos);
                            assert(spec_dense_label_source(lab, lou, ter, p, i) && packed_bit(
                                chi,
                                p,
                            ) && p < pos);
                        }
                        if packed_bit(before.bitmap_child_indicator_bits[level as int], i) {
                            lemma_child_source_widen(lab, lou, ter, chi, i, pos as int, pos + 1);
                        }
                        assert(packed_bit(self@.bitmap_child_indicator_bits[level as int], i)
                            == packed_bit(before.bitmap_child_indicator_bits[level as int], i));
                    }
                }
                assert forall|n: int| 0 <= n < nc_l implies ((packed_bit(
                    self@.prefixkey_indicator_bits[level as int],
                    n,
                )) == (exists|p: int|
                    #[trigger] spec_dense_prefix_source(lab, lou, ter, p, n) && p < pos + 1)) by {
                    if exists|p: int|
                        #[trigger] spec_dense_prefix_source(lab, lou, ter, p, n) && p < pos + 1 {
                        let p = choose|p: int|
                            #[trigger] spec_dense_prefix_source(lab, lou, ter, p, n) && p < pos
                                + 1;
                        assert(p != pos);
                        assert(spec_dense_prefix_source(lab, lou, ter, p, n) && p < pos);
                    }
                    if packed_bit(self@.prefixkey_indicator_bits[level as int], n) {
                        lemma_prefix_source_widen(lab, lou, ter, n, pos as int, pos + 1);
                    }
                    assert(packed_bit(self@.prefixkey_indicator_bits[level as int], n)
                        == packed_bit(before.prefixkey_indicator_bits[level as int], n));
                }
            }
            pos = pos + 1;
        }
        proof {
            let nc_l = self@.node_counts[level as int] as int;
            assert(lab == old(self)@.labels[level as int]);
            assert(lou == old(self)@.louds_bits[level as int]);
            assert(ter == old(self)@.terminator_bits[level as int]);
            assert(chi == old(self)@.child_indicator_bits[level as int]);
            assert forall|i: int| 0 <= i < 256 * nc_l implies ((packed_bit(
                self@.bitmap_labels[level as int],
                i,
            )) == spec_dense_label_expected(lab, lou, ter, i)) by {
                if spec_dense_label_expected(lab, lou, ter, i) {
                    let p = choose|p: int| #[trigger] spec_dense_label_source(lab, lou, ter, p, i);
                    assert(spec_dense_label_source(lab, lou, ter, p, i) && p < num_items);
                }
                if packed_bit(self@.bitmap_labels[level as int], i) {
                    let p = choose|p: int|
                        #[trigger] spec_dense_label_source(lab, lou, ter, p, i) && p < num_items;
                    assert(spec_dense_label_source(lab, lou, ter, p, i));
                }
            }
            assert forall|i: int| 0 <= i < 256 * nc_l implies ((packed_bit(
                self@.bitmap_child_indicator_bits[level as int],
                i,
            )) == spec_dense_child_expected(lab, lou, ter, chi, i)) by {
                if spec_dense_child_expected(lab, lou, ter, chi, i) {
                    let p = choose|p: int|
                        #[trigger] spec_dense_label_source(lab, lou, ter, p, i) && packed_bit(
                            chi,
                            p,
                        );
                    assert(spec_dense_label_source(lab, lou, ter, p, i) && packed_bit(chi, p) && p
                        < num_items);
                }
                if packed_bit(self@.bitmap_child_indicator_bits[level as int], i) {
                    let p = choose|p: int|
                        #[trigger] spec_dense_label_source(lab, lou, ter, p, i) && packed_bit(
                            chi,
                            p,
                        ) && p < num_items;
                    assert(spec_dense_label_source(lab, lou, ter, p, i) && packed_bit(chi, p));
                }
            }
            assert forall|n: int| 0 <= n < nc_l implies ((packed_bit(
                self@.prefixkey_indicator_bits[level as int],
                n,
            )) == spec_dense_prefix_expected(lab, lou, ter, n)) by {
                if spec_dense_prefix_expected(lab, lou, ter, n) {
                    let p = choose|p: int| #[trigger] spec_dense_prefix_source(lab, lou, ter, p, n);
                    assert(spec_dense_prefix_source(lab, lou, ter, p, n) && p < num_items);
                }
                if packed_bit(self@.prefixkey_indicator_bits[level as int], n) {
                    let p = choose|p: int|
                        #[trigger] spec_dense_prefix_source(lab, lou, ter, p, n) && p < num_items;
                    assert(spec_dense_prefix_source(lab, lou, ter, p, n));
                }
            }
        }
        true
    }

    /// Marks label presence, and child presence where the sparse arrays
    /// say the slot leads deeper, in the dense bitmaps of `level`.
    fn set_label_and_child_indicator_bitmap(
        &mut self,
        level: level_t,
        node_num: position_t,
        pos: position_t,
    )
        requires
            old(self).wf(),
            level < old(self)@.labels.len(),
            pos < old(self)@.labels[level as int].len(),
            level < old(self)@.bitmap_labels.len(),
            level < old(self)@.bitmap_child_indicator_bits.len(),
            old(self)@.bitmap_labels[level as int].len() == 4 * old(self)@.node_counts[level as int],
            old(self)@.bitmap_child_indicator_bits[level as int].len() == 4 * old(self)@.node_counts[level as int],
            old(self)@.node_counts[level as int] <= usize::MAX / 256,
            node_num < old(self)@.node_counts[level as int],
        ensures
            final(self).wf(),
            final(self)@ == (BuilderV {
                bitmap_labels: final(self)@.bitmap_labels,
                bitmap_child_indicator_bits: final(self)@.bitmap_child_indicator_bits,
                ..old(self)@
            }),
            final(self)@.bitmap_labels.len() == old(self)@.bitmap_labels.len(),
            final(self)@.bitmap_child_indicator_bits.len() == old(self)@.bitmap_child_indicator_bits.len(),
            final(self)@.bitmap_labels[level as int].len() == old(self)@.bitmap_labels[level as int].len(),
            final(self)@.bitmap_child_indicator_bits[level as int].len() == old(self)@.bitmap_child_indicator_bits[level as int].len(),
            forall|l: int|
                0 <= l < final(self)@.bitmap_labels.len() && l != level ==> final(self)@.bitmap_labels[l] == old(self)@.bitmap_labels[l],
            forall|l: int|
                0 <= l < final(self)@.bitmap_child_indicator_bits.len() && l != level ==> final(self)@.bitmap_child_indicator_bits[l] == old(self)@.bitmap_child_indicator_bits[l],
            // exactly the slot's dense bit is set in the label bitmap, and
            // in the child bitmap when the slot leads deeper
            forall|j: int|
                0 <= j < final(self)@.bitmap_labels[level as int].len() * 64 ==> packed_bit(
                    final(self)@.bitmap_labels[level as int],
                    j,
                ) == (j == node_num * 256 + old(self)@.labels[level as int][pos as int]
                    || packed_bit(old(self)@.bitmap_labels[level as int], j)),
            forall|j: int|
                0 <= j < final(self)@.bitmap_child_indicator_bits[level as int].len() * 64
                    ==> packed_bit(final(self)@.bitmap_child_indicator_bits[level as int], j) == ((
                j == node_num * 256 + old(self)@.labels[level as int][pos as int] && packed_bit(
                    old(self)@.child_indicator_bits[level as int],
                    pos as int,
                )) || packed_bit(old(self)@.bitmap_child_indicator_bits[level as int], j)),
    {
        let label = self.labels[level][pos];
        let bit_pos = node_num * K_FANOUT + (label as usize);
        proof {
            vstd::arithmetic::mul::lemma_mul_inequality(
                node_num + 1,
                old(self)@.node_counts[level as int] as int,
                256,
            );
            vstd::arithmetic::mul::lemma_mul_is_distributive_add_other_way(
                256,
                node_num as int,
                1,
            );
            assert(node_num * 256 + label < old(self)@.node_counts[level as int] * 256);
            assert(old(self)@.bitmap_labels[level as int].len() * 64 == 4 * old(self)@.node_counts[level as int] * 64);
            vstd::arithmetic::mul::lemma_mul_is_associative(
                4,
                old(self)@.node_counts[level as int] as int,
                64,
            );
        }
        let ghost before = self@;
        set_level_bit(&mut self.bitmap_labels, level, bit_pos);
        proof {
            lemma_builder_dense_update(before, self@, level as int);
        }
        let ghost mid = self@;
        proof {
            assert(pos < self@.child_indicator_bits[level as int].len() * 64);
            assert(self.child_indicator_bits@[level as int]@ == self@.child_indicator_bits[
                level as int]);
        }
        if read_packed_bit(&self.child_indicator_bits[level], pos) {
            let ghost before2 = self@;
            set_level_bit(&mut self.bitmap_child_indicator_bits, level, bit_pos);
            proof {
                lemma_builder_dense_update(before2, self@, level as int);
                assert(self@.bitmap_labels[level as int] == mid.bitmap_labels[level as int]);
            }
        } else {
            proof {
                assert(self@.bitmap_child_indicator_bits[level as int]
                    == before.bitmap_child_indicator_bits[level as int]);
            }
        }
    }
}

/// After updating one level's child-indicator words in place, the builder
/// stays well-formed and every other field keeps its value.
proof fn lemma_builder_child_update(pre: BuilderV, post: BuilderV, level: int)
    requires
        pre.wf(),
        0 <= level < pre.labels.len(),
        post == (BuilderV { child_indicator_bits: post.child_indicator_bits, ..pre }),
        post.child_indicator_bits.len() == pre.child_indicator_bits.len(),
        post.child_indicator_bits[level].len() == pre.child_indicator_bits[level].len(),
        forall|l: int|
            0 <= l < pre.child_indicator_bits.len() && l != level
                ==> post.child_indicator_bits[l] == pre.child_indicator_bits[l],
    ensures
        post.wf(),
{
    assert forall|l: int| 0 <= l < post.labels.len() implies (
    #[trigger] post.child_indicator_bits[l]).len() == post.labels[l].len() as int / 64 + 1 by {
        if l != level {
            assert(post.child_indicator_bits[l] == pre.child_indicator_bits[l]);
        }
    }
    assert forall|l: int| 0 <= l < post.labels.len() implies level_louds_ok(
        post.labels[l],
        #[trigger] post.louds_bits[l],
        post.node_counts[l],
    ) by {
        assert(post.louds_bits[l] == pre.louds_bits[l]);
    }
}

/// After pushing one label, the word arrays lag exactly one slot behind at
/// that level and the LOUDS relations still hold.
proof fn lemma_builder_label_push(pre: BuilderV, post: BuilderV, level: int, c: u8)
    requires
        pre.wf(),
        0 <= level < pre.labels.len(),
        post == (BuilderV { labels: post.labels, ..pre }),
        post.labels.len() == pre.labels.len(),
        post.labels[level] == pre.labels[level].push(c),
        forall|l: int| 0 <= l < pre.labels.len() && l != level ==> post.labels[l] == pre.labels[l],
    ensures
        post.labels[level].len() == pre.labels[level].len() + 1,
        count_ones(packed_bits(post.louds_bits[level], (post.labels[level].len() - 1) as nat))
            == post.node_counts[level],
        forall|i: int|
            post.labels[level].len() - 1 <= i < post.louds_bits[level].len() * 64 ==> !(
            #[trigger] packed_bit(post.louds_bits[level], i)),
        post.labels[level].len() > 1 ==> packed_bit(post.louds_bits[level], 0),
{
    assert(packed_bits(post.louds_bits[level], (post.labels[level].len() - 1) as nat)
        == packed_bits(pre.louds_bits[level], pre.labels[level].len()));
}

/// After setting the LOUDS bit at the newly pushed slot and bumping the
/// node count, the builder is well-formed again up to the lagging word
/// arrays.
proof fn lemma_builder_louds_set(pre: BuilderV, post: BuilderV, level: int)
    requires
        0 <= level < pre.labels.len(),
        pre.labels.len() == pre.louds_bits.len(),
        pre.labels.len() == pre.node_counts.len(),
        pre.labels[level].len() >= 1,
        // the slot bits above the previous label count were clear
        count_ones(packed_bits(pre.louds_bits[level], (pre.labels[level].len() - 1) as nat))
            == pre.node_counts[level],
        forall|i: int|
            pre.labels[level].len() - 1 <= i < pre.louds_bits[level].len() * 64 ==> !(
            #[trigger] packed_bit(pre.louds_bits[level], i)),
        pre.labels[level].len() <= pre.louds_bits[level].len() * 64,
        pre.labels[level].len() > 1 ==> packed_bit(pre.louds_bits[level], 0),
        post == (BuilderV { louds_bits: post.louds_bits, node_counts: post.node_counts, ..pre }),
        post.louds_bits.len() == pre.louds_bits.len(),
        post.node_counts == pre.node_counts.update(level, (pre.node_counts[level] + 1) as usize),
        pre.node_counts[level] + 1 <= usize::MAX,
        post.louds_bits[level].len() == pre.louds_bits[level].len(),
        forall|j: int|
            0 <= j < post.louds_bits[level].len() * 64 ==> packed_bit(post.louds_bits[level], j)
                == (j == pre.labels[level].len() - 1 || packed_bit(pre.louds_bits[level], j)),
        forall|l: int|
            0 <= l < pre.louds_bits.len() && l != level ==> post.louds_bits[l]
                == pre.louds_bits[l],
    ensures
        count_ones(packed_bits(post.louds_bits[level], post.labels[level].len()))
            == post.node_counts[level],
        forall|i: int|
            post.labels[level].len() <= i < post.louds_bits[level].len() * 64 ==> !(
            #[trigger] packed_bit(post.louds_bits[level], i)),
        post.labels[level].len() > 0 ==> packed_bit(post.louds_bits[level], 0),
        forall|l: int|
            0 <= l < post.labels.len() && l != level ==> level_louds_ok(
                post.labels[l],
                #[trigger] post.louds_bits[l],
                post.node_counts[l],
            ) == level_louds_ok(pre.labels[l], pre.louds_bits[l], pre.node_counts[l]),
{
    let n = pre.labels[level].len() - 1;
    let s_pre = packed_bits(pre.louds_bits[level], n as nat);
    let s_post = packed_bits(post.louds_bits[level], (n + 1) as nat);
    assert(s_post.take(n) =~= s_pre);
    lemma_count_ones_take_succ(s_post, n);
    assert(s_post.take(n + 1) =~= s_post);
    assert(s_post[n] == packed_bit(post.louds_bits[level], n));
    if n == 0 {
        assert(packed_bit(post.louds_bits[level], 0));
    } else {
        assert(packed_bit(post.louds_bits[level], 0) == packed_bit(pre.louds_bits[level], 0));
        assert(pre.labels[level].len() > 1);
        assert(packed_bit(pre.louds_bits[level], 0));
    }
}

/// After a label push with no LOUDS bit set, the newly covered slot is
/// clear, so the node count still matches.
proof fn lemma_builder_no_louds(pre: BuilderV, post: BuilderV, level: int)
    requires
        0 <= level < pre.labels.len(),
        pre.labels.len() == pre.louds_bits.len(),
        pre.labels.len() == pre.node_counts.len(),
        pre.labels[level].len() >= 1,
        count_ones(packed_bits(pre.louds_bits[level], (pre.labels[level].len() - 1) as nat))
            == pre.node_counts[level],
        forall|i: int|
            pre.labels[level].len() - 1 <= i < pre.louds_bits[level].len() * 64 ==> !(
            #[trigger] packed_bit(pre.louds_bits[level], i)),
        pre.labels[level].len() - 1 < pre.louds_bits[level].len() * 64,
        post == pre,
    ensures
        count_ones(packed_bits(post.louds_bits[level], post.labels[level].len()))
            == post.node_counts[level],
{
    let n = pre.labels[level].len() - 1;
    let s_post = packed_bits(post.louds_bits[level], (n + 1) as nat);
    assert(s_post.take(n) =~= packed_bits(pre.louds_bits[level], n as nat));
    lemma_count_ones_take_succ(s_post, n);
    assert(s_post.take(n + 1) =~= s_post);
    assert(!s_post[n]);
}

/// After updating one level's suffix words or counts, the builder stays
/// well-formed.
proof fn lemma_builder_suffix_update(pre: BuilderV, post: BuilderV, level: int)
    requires
        pre.wf(),
        0 <= level < pre.labels.len(),
        post == (BuilderV { suffixes: post.suffixes, suffix_counts: post.suffix_counts, ..pre }),
        post.suffixes.len() == pre.suffixes.len(),
        post.suffix_counts.len() == pre.suffix_counts.len(),
    ensures
        post.wf(),
{
    assert forall|l: int| 0 <= l < post.labels.len() implies level_louds_ok(
        post.labels[l],
        #[trigger] post.louds_bits[l],
        post.node_counts[l],
    ) by {
        assert(post.louds_bits[l] == pre.louds_bits[l]);
    }
}

/// After pushing a fresh level onto the dense bitmap arrays, the builder
/// stays well-formed.
proof fn lemma_builder_dense_push(pre: BuilderV, post: BuilderV, level: int)
    requires
        pre.wf(),
        post == (BuilderV {
            bitmap_labels: post.bitmap_labels,
            bitmap_child_indicator_bits: post.bitmap_child_indicator_bits,
            prefixkey_indicator_bits: post.prefixkey_indicator_bits,
            ..pre
        }),
    ensures
        post.wf(),
{
    assert forall|l: int| 0 <= l < post.labels.len() implies level_louds_ok(
        post.labels[l],
        #[trigger] post.louds_bits[l],
        post.node_counts[l],
    ) by {
        assert(post.louds_bits[l] == pre.louds_bits[l]);
    }
}

/// After setting bits in the dense bitmaps, the builder stays well-formed.
proof fn lemma_builder_dense_update(pre: BuilderV, post: BuilderV, level: int)
    requires
        pre.wf(),
        post == (BuilderV {
            bitmap_labels: post.bitmap_labels,
            bitmap_child_indicator_bits: post.bitmap_child_indicator_bits,
            prefixkey_indicator_bits: post.prefixkey_indicator_bits,
            ..pre
        }),
    ensures
        post.wf(),
{
    lemma_builder_dense_push(pre, post, level);
}

/// Appending words to a packed array keeps every already covered bit.
proof fn lemma_packed_bits_extend(pre: Seq<u64>, post: Seq<u64>, n: nat)
    requires
        n <= pre.len() * 64,
        post.len() >= pre.len(),
        forall|l: int| 0 <= l < pre.len() ==> post[l] == pre[l],
    ensures
        packed_bits(post, n) =~= packed_bits(pre, n),
        forall|i: int| 0 <= i < pre.len() * 64 ==> packed_bit(post, i) == packed_bit(pre, i),
{
    assert forall|i: int| 0 <= i < pre.len() * 64 implies packed_bit(post, i) == packed_bit(
        pre,
        i,
    ) by {
        assert(i / 64 < pre.len());
        assert(post[i / 64] == pre[i / 64]);
    }
    assert forall|i: int| 0 <= i < n implies packed_bits(post, n)[i] == packed_bits(pre, n)[i] by {
        assert(i / 64 < pre.len());
        assert(post[i / 64] == pre[i / 64]);
    }
}

} // verus!
