//! A flat byte array holding the labels of the sparse levels, with a
//! size-adaptive search over one node's label run: a linear scan for tiny
//! runs and a binary search for the rest. The choice of strategy is a
//! performance tier only; both return the same answer on the sorted runs
//! the trie guarantees.

use vstd::prelude::*;
use crate::codec::{be_val, lemma_be_round_trip, push_u64_be, read_u64_be, spec_u64_to_be,
    u64_to_usize_checked};
use crate::config::{label_t, level_t, position_t};

verus! {

/// Strict ascent of a label run: every slot's label is below the next
/// one's, so a node's labels are distinct and sorted.
pub open spec fn run_sorted(labels: Seq<u8>, pos: int, len: int) -> bool {
    forall|i: int, j: int|
        pos <= i < j < pos + len ==> #[trigger] labels[i] < #[trigger] labels[j]
}

/// Concatenation of the per-level label arrays over levels `[start, end)`.
pub open spec fn spec_concat_labels(labels_per_level: Seq<Seq<u8>>, start: int, end: int) -> Seq<
    u8,
>
    decreases end - start,
{
    if start >= end {
        Seq::empty()
    } else {
        spec_concat_labels(labels_per_level, start, end - 1) + labels_per_level[end - 1]
    }
}

/// One flat array of labels for a range of levels, padded at the end so a
/// wide comparison may read past the last label.
pub struct LabelVector {
    labels: Vec<label_t>,
}

impl View for LabelVector {
    type V = Seq<label_t>;

    closed spec fn view(&self) -> Seq<label_t> {
        self.labels@
    }
}

/// Total length of the per-level label arrays over `[start, end)`.
pub open spec fn spec_total_labels(labels_per_level: Seq<Seq<u8>>, start: int, end: int) -> int
    decreases end - start,
{
    if start >= end {
        0
    } else {
        spec_total_labels(labels_per_level, start, end - 1) + labels_per_level[end - 1].len()
    }
}

/// The concatenation is as long as the level totals say.
pub proof fn lemma_concat_labels_len(labels_per_level: Seq<Seq<u8>>, start: int, end: int)
    ensures
        spec_concat_labels(labels_per_level, start, end).len() == spec_total_labels(
            labels_per_level,
            start,
            end,
        ),
        0 <= spec_total_labels(labels_per_level, start, end),
    decreases end - start,
{
    if start < end {
        lemma_concat_labels_len(labels_per_level, start, end - 1);
    }
}

impl LabelVector {
    /// Concatenates the labels of levels `[start_level, end_level)` into
    /// one flat array with 17 bytes of zero padding at the end; an
    /// `end_level` of zero means all levels. `None` when the total length
    /// overflows the machine word.
    pub fn new(
        labels_per_level: &Vec<Vec<label_t>>,
        start_level: level_t,
        end_level: level_t,
    ) -> (r: Option<LabelVector>)
        requires
            end_level <= labels_per_level@.len(),
        ensures
            ({
                let end = if end_level == 0 {
                    labels_per_level@.len() as int
                } else {
                    end_level as int
                };
                let target = spec_concat_labels(labels_per_level.deep_view(), start_level as int, end);
                match r {
                    Some(lv) => {
                        &&& lv@.len() == target.len() + 17
                        &&& lv@.take(target.len() as int) == target
                        &&& forall|i: int| target.len() <= i < lv@.len() ==> lv@[i] == 0
                    },
                    None => target.len() + 17 > usize::MAX,
                }
            }),
    {
        let ghost levels = labels_per_level.deep_view();
        let endl = if end_level == 0 {
            labels_per_level.len()
        } else {
            end_level
        };
        let ghost target = spec_concat_labels(levels, start_level as int, endl as int);
        proof {
            lemma_concat_labels_len(levels, start_level as int, end_level as int);
        }
        let mut labels: Vec<label_t> = Vec::new();
        let mut level = start_level;
        if level > endl {
            let mut pad: usize = 0;
            while pad < 17
                invariant
                    pad <= 17,
                    labels@.len() == pad,
                    forall|i: int| 0 <= i < pad ==> labels@[i] == 0,
                decreases 17 - pad,
            {
                labels.push(0);
                pad = pad + 1;
            }
            proof {
                assert(labels@.take(target.len() as int) =~= target);
            }
            return Some(LabelVector { labels });
        }
        while level < endl
            invariant
                start_level <= level <= endl,
                endl <= labels_per_level@.len(),
                endl as int == if end_level == 0 {
                    labels_per_level@.len() as int
                } else {
                    end_level as int
                },
                levels == labels_per_level.deep_view(),
                target == spec_concat_labels(levels, start_level as int, endl as int),
                labels@ =~= spec_concat_labels(levels, start_level as int, level as int),
            decreases endl - level,
        {
            let level_labels = &labels_per_level[level];
            let n = level_labels.len();
            proof {
                assert(level < endl <= labels_per_level@.len());
            }
            if n > usize::MAX - labels.len() {
                proof {
                    lemma_concat_labels_len(levels, start_level as int, level as int);
                    lemma_concat_labels_len(levels, start_level as int, level + 1);
                    lemma_concat_labels_len(levels, start_level as int, endl as int);
                    lemma_total_labels_monotone(levels, start_level as int, level + 1, endl as int);
                    assert(labels@.len() == spec_total_labels(levels, start_level as int, level as int));
                    assert(spec_total_labels(levels, start_level as int, level + 1)
                        == spec_total_labels(levels, start_level as int, level as int)
                        + levels[level as int].len());
                    assert(target.len() >= labels@.len() + n);
                    assert(target.len() + 17 > usize::MAX);
                }
                return None;
            }
            let mut idx: usize = 0;
            while idx < n
                invariant
                    idx <= n,
                    n == level_labels@.len(),
                    level_labels@ == levels[level as int],
                    start_level <= level < endl,
                    endl <= labels_per_level@.len(),
                    labels@ =~= spec_concat_labels(levels, start_level as int, level as int)
                        + levels[level as int].take(idx as int),
                    labels@.len() + (n - idx) <= usize::MAX,
                decreases n - idx,
            {
                labels.push(level_labels[idx]);
                proof {
                    assert(labels@ =~= spec_concat_labels(levels, start_level as int, level as int)
                        + levels[level as int].take(idx + 1));
                }
                idx = idx + 1;
            }
            proof {
                assert(levels[level as int].take(n as int) =~= levels[level as int]);
                assert(labels@ =~= spec_concat_labels(levels, start_level as int, level + 1));
            }
            level = level + 1;
        }
        if labels.len() > usize::MAX - 17 {
            return None;
        }
        let ghost body = labels@;
        let mut pad: usize = 0;
        while pad < 17
            invariant
                pad <= 17,
                body.len() + 17 <= usize::MAX,
                labels@.len() == body.len() + pad,
                labels@.take(body.len() as int) =~= body,
                forall|i: int| body.len() <= i < labels@.len() ==> labels@[i] == 0,
            decreases 17 - pad,
        {
            labels.push(0);
            pad = pad + 1;
        }
        proof {
            assert(labels@.take(target.len() as int) =~= target);
        }
        Some(LabelVector { labels })
    }

    /// Number of label slots, padding included.
    pub fn label_count(&self) -> (r: position_t)
        ensures
            r == self@.len(),
    {
        self.labels.len()
    }

    /// Reads the label at `pos`.
    pub fn read(&self, pos: position_t) -> (r: label_t)
        requires
            pos < self@.len(),
        ensures
            r == self@[pos as int],
    {
        self.labels[pos]
    }

    /// Searches a node's label run `[pos, pos + search_len)` for `target`:
    /// a linear scan for tiny runs and a binary search for the rest, both
    /// with the same answer on the strictly ascending runs the trie
    /// guarantees. Returns whether the target occurs, together with its
    /// absolute position when found, or the run's start when not.
    pub fn search(&self, target: label_t, pos: position_t, search_len: position_t) -> (r: (
        bool,
        position_t,
    ))
        requires
            1 <= search_len,
            pos + search_len <= self@.len(),
            run_sorted(self@, pos as int, search_len as int),
        ensures
            r.0 == exists|i: int| pos <= i < pos + search_len && self@[i] == target,
            r.0 ==> pos <= r.1 < pos + search_len && self@[r.1 as int] == target,
            !r.0 ==> r.1 == pos,
    {
        if search_len < 3 {
            self.linear_search(target, pos, search_len)
        } else {
            self.binary_search(target, pos, search_len)
        }
    }

    /// Scans the run left to right.
    fn linear_search(&self, target: label_t, pos: position_t, search_len: position_t) -> (r: (
        bool,
        position_t,
    ))
        requires
            1 <= search_len,
            pos + search_len <= self@.len(),
        ensures
            r.0 == exists|i: int| pos <= i < pos + search_len && self@[i] == target,
            r.0 ==> pos <= r.1 < pos + search_len && self@[r.1 as int] == target,
            !r.0 ==> r.1 == pos,
    {
        let total = self.labels.len();
        let mut i: position_t = 0;
        while i < search_len
            invariant
                i <= search_len,
                pos + search_len <= self@.len(),
                self@.len() == total,
                forall|j: int| pos <= j < pos + i ==> self@[j] != target,
            decreases search_len - i,
        {
            if target == self.labels[pos + i] {
                return (true, pos + i);
            }
            i = i + 1;
        }
        (false, pos)
    }

    /// Halves the strictly ascending run around the target.
    fn binary_search(&self, target: label_t, pos: position_t, search_len: position_t) -> (r: (
        bool,
        position_t,
    ))
        requires
            1 <= search_len,
            pos + search_len <= self@.len(),
            forall|i: int, j: int|
                pos <= i < j < pos + search_len ==> #[trigger] self@[i] < #[trigger] self@[j],
        ensures
            r.0 == exists|i: int| pos <= i < pos + search_len && self@[i] == target,
            r.0 ==> pos <= r.1 < pos + search_len && self@[r.1 as int] == target,
            !r.0 ==> r.1 == pos,
    {
        let total = self.labels.len();
        let mut l: position_t = pos;
        let mut r: position_t = pos + search_len;
        while l < r
            invariant
                pos <= l <= r <= pos + search_len,
                pos + search_len <= self@.len(),
                self@.len() == total,
                forall|i: int, j: int|
                    pos <= i < j < pos + search_len ==> #[trigger] self@[i] < #[trigger] self@[j],
                forall|i: int| pos <= i < l ==> self@[i] < target,
                forall|i: int| r <= i < pos + search_len ==> self@[i] > target,
            decreases r - l,
        {
            let m = l + (r - l) / 2;
            let v = self.labels[m];
            if target < v {
                proof {
                    assert forall|i: int| m <= i < pos + search_len implies self@[i] > target by {
                        if i > m {
                            assert(self@[m as int] < self@[i]);
                        }
                    }
                }
                r = m;
            } else if target == v {
                return (true, m);
            } else {
                proof {
                    assert forall|i: int| pos <= i < m + 1 implies self@[i] < target by {
                        if i < m {
                            assert(self@[i] < self@[m as int]);
                        }
                    }
                }
                l = m + 1;
            }
        }
        (false, pos)
    }
}

/// Per-level label totals grow with the level range.
pub proof fn lemma_total_labels_monotone(
    labels_per_level: Seq<Seq<u8>>,
    start: int,
    mid: int,
    end: int,
)
    requires
        start <= mid <= end,
    ensures
        spec_total_labels(labels_per_level, start, mid) <= spec_total_labels(
            labels_per_level,
            start,
            end,
        ),
    decreases end - mid,
{
    if mid < end {
        lemma_total_labels_monotone(labels_per_level, start, mid, end - 1);
    }
}

/// Byte encoding of a label vector: `[label count][labels...]`, the count
/// 8-byte big-endian and each label one byte.
pub open spec fn enc_label_vector(v: Seq<u8>) -> Seq<u8> {
    spec_u64_to_be(v.len() as u64) + v
}

/// The label vector a byte string spells: the exact parse of
/// [`enc_label_vector`].
pub open spec fn dec_label_vector(bytes: Seq<u8>) -> Option<Seq<u8>> {
    if bytes.len() < 8 {
        None
    } else {
        let ll = be_val(bytes.subrange(0, 8));
        if ll > usize::MAX || bytes.len() != 8 + ll {
            None
        } else {
            Some(bytes.subrange(8, bytes.len() as int))
        }
    }
}

impl LabelVector {
    /// Emits `[label count][labels...]`.
    pub fn serialize(&self) -> (r: Vec<u8>)
        ensures
            r@ == enc_label_vector(self@),
    {
        let mut bytes: Vec<u8> = Vec::new();
        push_u64_be(&mut bytes, self.labels.len() as u64);
        bytes.extend_from_slice(self.labels.as_slice());
        proof {
            assert(bytes@ =~= enc_label_vector(self@));
        }
        bytes
    }

    /// Parses what [`LabelVector::serialize`] emits; `None` when the bytes
    /// are truncated or have trailing garbage.
    pub fn deserialize(bytes: &[u8]) -> (r: Option<LabelVector>)
        ensures
            match r {
                Some(lv) => dec_label_vector(bytes@) == Some(lv@),
                None => dec_label_vector(bytes@) is None,
            },
    {
        if bytes.len() < 8 {
            return None;
        }
        let ll64 = read_u64_be(bytes, 0);
        let ll = match u64_to_usize_checked(ll64) {
            Some(v) => v,
            None => {
                return None;
            },
        };
        if bytes.len() - 8 != ll {
            return None;
        }
        let labels = vstd::slice::slice_to_vec(slice_range(bytes, 8, bytes.len()));
        Some(LabelVector { labels })
    }

    /// Raw byte footprint of the label array.
    pub fn byte_size(&self) -> (r: usize)
        ensures
            r == self@.len(),
    {
        self.labels.len()
    }
}

/// The subslice `bytes[lo..hi]`.
fn slice_range(bytes: &[u8], lo: usize, hi: usize) -> (r: &[u8])
    requires
        lo <= hi <= bytes@.len(),
    ensures
        r@ == bytes@.subrange(lo as int, hi as int),
{
    &bytes[lo..hi]
}

/// Parsing inverts encoding: a label vector's bytes spell it back.
pub proof fn lemma_dec_enc_label_vector(v: Seq<u8>)
    requires
        v.len() <= usize::MAX - 8,
    ensures
        dec_label_vector(enc_label_vector(v)) == Some(v),
{
    let bytes = enc_label_vector(v);
    assert(bytes.subrange(0, 8) =~= spec_u64_to_be(v.len() as u64));
    lemma_be_round_trip(v.len() as u64);
    assert(bytes.subrange(8, bytes.len() as int) =~= v);
}

} // verus!
