//! Big-endian byte encoding of machine words, shared by every serializer.
//! All multi-byte scalar fields of the serialized index are 8-byte
//! big-endian values.

use vstd::prelude::*;
use vstd::arithmetic::power2::*;

verus! {

/// Byte `i` of the big-endian encoding of `x`; byte 0 is the most
/// significant.
pub open spec fn be_byte(x: u64, i: int) -> u8 {
    ((x >> ((56 - 8 * i) as u64)) & 0xff) as u8
}

/// The 8-byte big-endian encoding of `x`.
pub open spec fn spec_u64_to_be(x: u64) -> Seq<u8> {
    Seq::new(8, |i: int| be_byte(x, i))
}

/// The integer a big-endian byte string denotes.
pub open spec fn be_val(s: Seq<u8>) -> int
    decreases s.len(),
{
    if s.len() == 0 {
        0
    } else {
        be_val(s.drop_last()) * 256 + s.last()
    }
}

/// A big-endian byte string of length `n` denotes a value below `2^(8n)`.
pub proof fn lemma_be_val_bound(s: Seq<u8>)
    ensures
        0 <= be_val(s) < pow2(8 * s.len()),
    decreases s.len(),
{
    if s.len() == 0 {
        lemma2_to64();
    } else {
        lemma_be_val_bound(s.drop_last());
        lemma_pow2_adds(8 * (s.len() - 1) as nat, 8);
        lemma2_to64();
    }
}

/// Decoding inverts encoding: the 8 bytes of `x` denote `x`.
pub proof fn lemma_be_round_trip(x: u64)
    ensures
        be_val(spec_u64_to_be(x)) == x,
{
    let s = spec_u64_to_be(x);
    let b0 = be_byte(x, 0);
    let b1 = be_byte(x, 1);
    let b2 = be_byte(x, 2);
    let b3 = be_byte(x, 3);
    let b4 = be_byte(x, 4);
    let b5 = be_byte(x, 5);
    let b6 = be_byte(x, 6);
    let b7 = be_byte(x, 7);
    assert(s =~= seq![b0, b1, b2, b3, b4, b5, b6, b7]);
    assert(seq![b0, b1, b2, b3, b4, b5, b6, b7].drop_last() =~= seq![b0, b1, b2, b3, b4, b5, b6]);
    assert(seq![b0, b1, b2, b3, b4, b5, b6].drop_last() =~= seq![b0, b1, b2, b3, b4, b5]);
    assert(seq![b0, b1, b2, b3, b4, b5].drop_last() =~= seq![b0, b1, b2, b3, b4]);
    assert(seq![b0, b1, b2, b3, b4].drop_last() =~= seq![b0, b1, b2, b3]);
    assert(seq![b0, b1, b2, b3].drop_last() =~= seq![b0, b1, b2]);
    assert(seq![b0, b1, b2].drop_last() =~= seq![b0, b1]);
    assert(seq![b0, b1].drop_last() =~= seq![b0]);
    assert(seq![b0].drop_last() =~= Seq::<u8>::empty());
    assert(be_val(Seq::<u8>::empty()) == 0);
    assert(be_val(seq![b0]) == b0);
    assert(be_val(seq![b0, b1]) == b0 * 256 + b1);
    assert(be_val(seq![b0, b1, b2]) == (b0 * 256 + b1) * 256 + b2);
    assert(be_val(seq![b0, b1, b2, b3]) == ((b0 * 256 + b1) * 256 + b2) * 256 + b3);
    assert(be_val(seq![b0, b1, b2, b3, b4]) == (((b0 * 256 + b1) * 256 + b2) * 256 + b3) * 256
        + b4);
    assert(be_val(seq![b0, b1, b2, b3, b4, b5]) == ((((b0 * 256 + b1) * 256 + b2) * 256 + b3)
        * 256 + b4) * 256 + b5);
    assert(be_val(seq![b0, b1, b2, b3, b4, b5, b6]) == (((((b0 * 256 + b1) * 256 + b2) * 256
        + b3) * 256 + b4) * 256 + b5) * 256 + b6);
    assert(be_val(s) == (((((((b0 * 256 + b1) * 256 + b2) * 256 + b3) * 256 + b4) * 256 + b5)
        * 256 + b6) * 256 + b7));
    assert(((x >> 56u64) & 0xff) < 256 && ((x >> 48u64) & 0xff) < 256 && ((x >> 40u64) & 0xff)
        < 256 && ((x >> 32u64) & 0xff) < 256 && ((x >> 24u64) & 0xff) < 256 && ((x >> 16u64)
        & 0xff) < 256 && ((x >> 8u64) & 0xff) < 256 && ((x >> 0u64) & 0xff) < 256)
        by (bit_vector);
    assert((((((((((x >> 56u64) & 0xff) * 256 + ((x >> 48u64) & 0xff)) * 256 + ((x >> 40u64)
        & 0xff)) * 256 + ((x >> 32u64) & 0xff)) * 256 + ((x >> 24u64) & 0xff)) * 256 + ((x
        >> 16u64) & 0xff)) * 256 + ((x >> 8u64) & 0xff)) * 256 + ((x >> 0u64) & 0xff)) == x)
        by (bit_vector);
}

/// Appends the 8-byte big-endian encoding of `x` to `out`.
pub fn push_u64_be(out: &mut Vec<u8>, x: u64)
    ensures
        final(out)@ == old(out)@ + spec_u64_to_be(x),
{
    let mut i: usize = 0;
    while i < 8
        invariant
            i <= 8,
            out@ == old(out)@ + spec_u64_to_be(x).take(i as int),
        decreases 8 - i,
    {
        let sh: u64 = 56 - 8 * (i as u64);
        let b: u8 = ((x >> sh) & 0xff) as u8;
        assert(b == be_byte(x, i as int));
        out.push(b);
        assert(out@ =~= old(out)@ + spec_u64_to_be(x).take(i + 1));
        i = i + 1;
    }
    assert(spec_u64_to_be(x).take(8) =~= spec_u64_to_be(x));
}

/// Reads the 8-byte big-endian value stored at `bytes[off..off + 8]`.
pub fn read_u64_be(bytes: &[u8], off: usize) -> (r: u64)
    requires
        off + 8 <= bytes@.len(),
    ensures
        r == be_val(bytes@.subrange(off as int, off + 8)),
{
    let ghost s = bytes@.subrange(off as int, off + 8);
    proof {
        lemma_be_val_bound(s);
        lemma2_to64();
    }
    let n: usize = bytes.len();
    let mut acc: u64 = 0;
    let mut i: usize = 0;
    while i < 8
        invariant
            i <= 8,
            n == bytes@.len(),
            off + 8 <= n,
            s == bytes@.subrange(off as int, off + 8),
            acc == be_val(s.take(i as int)),
        decreases 8 - i,
    {
        let b: u8 = bytes[off + i];
        proof {
            lemma2_to64();
            lemma_be_val_bound(s.take(i as int));
            lemma_pow2_adds(8 * i as nat, 8);
            lemma_pow2_le_max64(8 * (i + 1) as nat);
            assert(acc <= pow2(8 * i as nat) - 1);
            assert(acc * 256 <= (pow2(8 * i as nat) - 1) * 256);
            assert(pow2(8 * i as nat) * 256 == pow2(8 * (i + 1) as nat));
            assert(acc * 256 + b < pow2(8 * (i + 1) as nat));
            assert(s.take(i + 1).drop_last() =~= s.take(i as int));
            assert(s.take(i + 1).last() == s[i as int]);
            assert(s[i as int] == bytes@[off + i]);
        }
        acc = acc * 256 + (b as u64);
        i = i + 1;
    }
    assert(s.take(8) =~= s);
    acc
}

/// Big-endian encoding of a word sequence, one 8-byte field per word.
pub open spec fn enc_words(ws: Seq<u64>) -> Seq<u8>
    decreases ws.len(),
{
    if ws.len() == 0 {
        Seq::empty()
    } else {
        enc_words(ws.drop_last()) + spec_u64_to_be(ws.last())
    }
}

/// Encoded words take 8 bytes each.
pub proof fn lemma_enc_words_len(ws: Seq<u64>)
    ensures
        enc_words(ws).len() == 8 * ws.len(),
    decreases ws.len(),
{
    if ws.len() > 0 {
        lemma_enc_words_len(ws.drop_last());
    }
}

/// Word `i` occupies bytes `8i..8i + 8` of the encoding.
pub proof fn lemma_enc_words_index(ws: Seq<u64>, i: int)
    requires
        0 <= i < ws.len(),
    ensures
        enc_words(ws).subrange(8 * i, 8 * i + 8) == spec_u64_to_be(ws[i]),
    decreases ws.len(),
{
    lemma_enc_words_len(ws);
    lemma_enc_words_len(ws.drop_last());
    if i == ws.len() - 1 {
        assert(enc_words(ws).subrange(8 * i, 8 * i + 8) =~= spec_u64_to_be(ws.last()));
    } else {
        lemma_enc_words_index(ws.drop_last(), i);
        assert(enc_words(ws).subrange(8 * i, 8 * i + 8) =~= enc_words(ws.drop_last()).subrange(
            8 * i,
            8 * i + 8,
        ));
    }
}

/// Appends the big-endian encoding of every word of `ws` to `out`.
pub fn push_words_be(out: &mut Vec<u8>, ws: &Vec<u64>)
    ensures
        final(out)@ == old(out)@ + enc_words(ws@),
{
    let n = ws.len();
    let mut i: usize = 0;
    while i < n
        invariant
            i <= n,
            n == ws@.len(),
            out@ == old(out)@ + enc_words(ws@.take(i as int)),
        decreases n - i,
    {
        push_u64_be(out, ws[i]);
        proof {
            assert(ws@.take(i + 1).drop_last() =~= ws@.take(i as int));
            assert(ws@.take(i + 1).last() == ws@[i as int]);
            assert(out@ =~= old(out)@ + enc_words(ws@.take(i + 1)));
        }
        i = i + 1;
    }
    proof {
        assert(ws@.take(n as int) =~= ws@);
    }
}

/// The `count` 8-byte big-endian words stored at `bytes[off..]`.
pub open spec fn dec_words(bytes: Seq<u8>, off: int, count: nat) -> Seq<u64> {
    Seq::new(count, |i: int| be_val(bytes.subrange(off + 8 * i, off + 8 * i + 8)) as u64)
}

/// Reads `count` consecutive 8-byte big-endian words starting at `off`.
pub fn read_words_be(bytes: &[u8], off: usize, count: usize) -> (r: Vec<u64>)
    requires
        off + 8 * count <= bytes@.len(),
    ensures
        r@ == dec_words(bytes@, off as int, count as nat),
{
    let ghost target = dec_words(bytes@, off as int, count as nat);
    let n: usize = bytes.len();
    let mut r: Vec<u64> = Vec::new();
    let mut i: usize = 0;
    while i < count
        invariant
            i <= count,
            n == bytes@.len(),
            off + 8 * count <= n,
            target == dec_words(bytes@, off as int, count as nat),
            r@ =~= target.take(i as int),
        decreases count - i,
    {
        let w = read_u64_be(bytes, off + 8 * i);
        proof {
            lemma_be_val_bound(bytes@.subrange(off + 8 * i, off + 8 * i + 8));
            lemma_pow2_le_max64(64);
        }
        r.push(w);
        proof {
            assert(r@ =~= target.take(i + 1));
        }
        i = i + 1;
    }
    proof {
        assert(target.take(count as int) =~= target);
    }
    r
}

/// A sequence of machine words widened to 64 bits.
pub open spec fn u64s_of(s: Seq<usize>) -> Seq<u64> {
    Seq::new(s.len(), |i: int| s[i] as u64)
}

/// Appends the 8-byte big-endian encoding of every entry of `vs` to `out`.
pub fn push_usizes_be(out: &mut Vec<u8>, vs: &Vec<usize>)
    ensures
        final(out)@ == old(out)@ + enc_words(u64s_of(vs@)),
{
    let n = vs.len();
    let mut i: usize = 0;
    while i < n
        invariant
            i <= n,
            n == vs@.len(),
            out@ == old(out)@ + enc_words(u64s_of(vs@).take(i as int)),
        decreases n - i,
    {
        push_u64_be(out, vs[i] as u64);
        proof {
            assert(u64s_of(vs@).take(i + 1).drop_last() =~= u64s_of(vs@).take(i as int));
            assert(u64s_of(vs@).take(i + 1).last() == u64s_of(vs@)[i as int]);
            assert(out@ =~= old(out)@ + enc_words(u64s_of(vs@).take(i + 1)));
        }
        i = i + 1;
    }
    proof {
        assert(u64s_of(vs@).take(n as int) =~= u64s_of(vs@));
    }
}

/// The `count` 8-byte big-endian values at `bytes[off..]`, each narrowed
/// to a machine word.
pub open spec fn dec_usizes(bytes: Seq<u8>, off: int, count: nat) -> Seq<usize> {
    Seq::new(count, |i: int| dec_words(bytes, off, count)[i] as usize)
}

/// Reads `count` 8-byte big-endian values starting at `off`, each of which
/// must fit in `usize`.
pub fn read_usizes_be(bytes: &[u8], off: usize, count: usize) -> (r: Option<Vec<usize>>)
    requires
        off + 8 * count <= bytes@.len(),
    ensures
        match r {
            Some(v) => v@ == dec_usizes(bytes@, off as int, count as nat) && (forall|
                i: int,
            |
                0 <= i < count ==> #[trigger] dec_words(bytes@, off as int, count as nat)[i]
                    <= usize::MAX),
            None => exists|i: int|
                0 <= i < count && #[trigger] dec_words(bytes@, off as int, count as nat)[i]
                    > usize::MAX,
        },
{
    let ghost dw = dec_words(bytes@, off as int, count as nat);
    let n: usize = bytes.len();
    let mut r: Vec<usize> = Vec::new();
    let mut i: usize = 0;
    while i < count
        invariant
            i <= count,
            n == bytes@.len(),
            off + 8 * count <= n,
            dw == dec_words(bytes@, off as int, count as nat),
            u64s_of(r@) =~= dw.take(i as int),
            r@.len() == i,
            forall|j: int| 0 <= j < i ==> #[trigger] dw[j] <= usize::MAX,
            forall|j: int| 0 <= j < i ==> r@[j] == dw[j] as usize,
        decreases count - i,
    {
        let w = read_u64_be(bytes, off + 8 * i);
        proof {
            lemma_be_val_bound(bytes@.subrange(off + 8 * i, off + 8 * i + 8));
            lemma_pow2_le_max64(64);
            assert(dw[i as int] == w);
        }
        let v = match u64_to_usize_checked(w) {
            Some(v) => v,
            None => {
                return None;
            },
        };
        r.push(v);
        proof {
            assert(u64s_of(r@) =~= dw.take(i + 1));
        }
        i = i + 1;
    }
    proof {
        assert(r@ =~= dec_usizes(bytes@, off as int, count as nat));
    }
    Some(r)
}

/// Whether two machine-word vectors hold the same entries.
pub fn usize_vecs_equal(a: &Vec<usize>, b: &Vec<usize>) -> (r: bool)
    ensures
        r == (a@ =~= b@),
{
    if a.len() != b.len() {
        return false;
    }
    let n = a.len();
    let mut i: usize = 0;
    while i < n
        invariant
            i <= n,
            n == a@.len(),
            n == b@.len(),
            forall|j: int| 0 <= j < i ==> a@[j] == b@[j],
        decreases n - i,
    {
        if a[i] != b[i] {
            return false;
        }
        i = i + 1;
    }
    true
}

/// Casts a 64-bit value down to `usize` when it fits.
pub fn u64_to_usize_checked(x: u64) -> (r: Option<usize>)
    ensures
        match r {
            Some(v) => v == x,
            None => x > usize::MAX,
        },
{
    if x <= usize::MAX as u64 {
        Some(x as usize)
    } else {
        None
    }
}

/// Byte `i` of the `count`-byte big-endian tail of `x`; byte 0 is the most
/// significant of the tail.
pub open spec fn spec_u128_tail_byte(x: u128, count: int, i: int) -> u8 {
    ((x >> ((8 * (count - 1 - i)) as u128)) & 0xff) as u8
}

/// The `count`-byte big-endian tail of `x`.
pub open spec fn spec_u128_tail_bytes(x: u128, count: int) -> Seq<u8> {
    Seq::new(count as nat, |i: int| spec_u128_tail_byte(x, count, i))
}

/// The last `count` bytes of the big-endian form of `x`.
pub fn u128_tail_bytes(x: u128, count: usize) -> (r: Vec<u8>)
    requires
        count <= 16,
    ensures
        r@ == spec_u128_tail_bytes(x, count as int),
{
    let ghost target = spec_u128_tail_bytes(x, count as int);
    let mut r: Vec<u8> = Vec::new();
    let mut i: usize = 0;
    while i < count
        invariant
            i <= count,
            count <= 16,
            target == spec_u128_tail_bytes(x, count as int),
            r@ =~= target.take(i as int),
        decreases count - i,
    {
        let sh: u128 = 8 * ((count - 1 - i) as u128);
        let b: u8 = ((x >> sh) & 0xff) as u8;
        proof {
            assert(b == spec_u128_tail_byte(x, count as int, i as int));
        }
        r.push(b);
        proof {
            assert(r@ =~= target.take(i + 1));
        }
        i = i + 1;
    }
    proof {
        assert(target.take(count as int) =~= target);
    }
    r
}

/// Reads a big-endian value of at most 16 bytes.
pub fn u128_from_be(bytes: &[u8]) -> (r: u128)
    requires
        1 <= bytes@.len() <= 16,
    ensures
        r == be_val(bytes@),
{
    let ghost s = bytes@;
    proof {
        lemma_be_val_bound(s);
        lemma_pow2_le_max128(8 * s.len());
    }
    let n: usize = bytes.len();
    let mut acc: u128 = 0;
    let mut i: usize = 0;
    while i < n
        invariant
            i <= n,
            n == bytes@.len(),
            n <= 16,
            s == bytes@,
            acc == be_val(s.take(i as int)),
        decreases n - i,
    {
        let b: u8 = bytes[i];
        proof {
            lemma2_to64();
            lemma_be_val_bound(s.take(i as int));
            lemma_pow2_adds(8 * i as nat, 8);
            lemma_pow2_le_max128(8 * (i + 1) as nat);
            assert(acc <= pow2(8 * i as nat) - 1);
            assert(acc * 256 <= (pow2(8 * i as nat) - 1) * 256);
            assert(pow2(8 * i as nat) * 256 == pow2(8 * (i + 1) as nat));
            assert(acc * 256 + b < pow2(8 * (i + 1) as nat));
            assert(s.take(i + 1).drop_last() =~= s.take(i as int));
            assert(s.take(i + 1).last() == s[i as int]);
        }
        acc = acc * 256 + (b as u128);
        i = i + 1;
    }
    assert(s.take(n as int) =~= s);
    acc
}

/// Addition that tops out at the machine word's maximum.
pub open spec fn sat_add(a: int, b: int) -> int {
    if a + b > usize::MAX {
        usize::MAX as int
    } else {
        a + b
    }
}

/// Eightfold scaling that tops out at the machine word's maximum.
pub open spec fn sat_mul8(a: int) -> int {
    if 8 * a > usize::MAX {
        usize::MAX as int
    } else {
        8 * a
    }
}

/// Fourfold scaling that tops out at the machine word's maximum.
pub open spec fn sat_mul4(a: int) -> int {
    if 4 * a > usize::MAX {
        usize::MAX as int
    } else {
        4 * a
    }
}

/// Saturating addition on machine words.
pub fn sat_add_usize(a: usize, b: usize) -> (r: usize)
    ensures
        r == sat_add(a as int, b as int),
{
    match a.checked_add(b) {
        Some(v) => v,
        None => usize::MAX,
    }
}

/// Saturating eightfold scaling on machine words.
pub fn sat_mul8_usize(a: usize) -> (r: usize)
    ensures
        r == sat_mul8(a as int),
{
    match a.checked_mul(8) {
        Some(v) => v,
        None => usize::MAX,
    }
}

/// Saturating fourfold scaling on machine words.
pub fn sat_mul4_usize(a: usize) -> (r: usize)
    ensures
        r == sat_mul4(a as int),
{
    match a.checked_mul(4) {
        Some(v) => v,
        None => usize::MAX,
    }
}

/// `2^n` fits in a 128-bit word for every `n` up to 128.
pub proof fn lemma_pow2_le_max128(n: nat)
    requires
        n <= 128,
    ensures
        pow2(n) <= 0x1_0000_0000_0000_0000_0000_0000_0000_0000,
{
    lemma2_to64();
    lemma2_to64_rest();
    if n < 64 {
        lemma_pow2_strictly_increases(n, 64);
    }
    if 64 <= n < 128 {
        lemma_pow2_strictly_increases(n, 128);
        lemma_pow2_adds(64, 64);
    }
    if n == 128 {
        lemma_pow2_adds(64, 64);
    }
}

/// `2^n` fits in a 64-bit word for every `n` up to 64.
pub proof fn lemma_pow2_le_max64(n: nat)
    requires
        n <= 64,
    ensures
        pow2(n) <= 0x1_0000_0000_0000_0000,
{
    lemma2_to64();
    lemma2_to64_rest();
    if n < 64 {
        lemma_pow2_strictly_increases(n, 64);
    }
}

} // verus!
