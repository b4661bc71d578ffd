//! Integer encoders for trajectory keys: a portable count of leading
//! zeros, periodical time encoding, bit interleaving of two spatial and one
//! temporal component, and the byte packing of the mixed value.

use vstd::prelude::*;
use vstd::std_specs::bits::{axiom_u32_leading_zeros, u32_leading_zeros};
use crate::codec::{spec_u128_tail_bytes, u128_tail_bytes};

verus! {

/// How the spatial and temporal bit strings combine into one value.
pub enum MixType {
    /// The spatial bits first, the temporal bits after them.
    Seperate,
    /// Spatial and temporal bits interleaved from the top.
    Mix,
}

/// Shifting right by at least as much keeps a value at zero.
proof fn lemma_shr_zero_monotone(x: u32, a: u32, b: u32)
    by (bit_vector)
    requires
        a <= b < 32,
        x >> a == 0,
    ensures
        x >> b == 0,
{
}

/// A value whose high bits vanish has no set bit among them.
proof fn lemma_shr_zero_bit(x: u32, a: u32, j: u32)
    by (bit_vector)
    requires
        a <= j < 32,
        x >> a == 0,
    ensures
        (x >> j) & 1u32 == 0u32,
{
}

/// Counts the leading zero bits of `num` without a platform intrinsic.
pub fn stable_ctlz(num: u32) -> (r: u32)
    ensures
        r == u32_leading_zeros(num),
{
    proof {
        axiom_u32_leading_zeros(num);
    }
    if num == 0 {
        return 32u32;
    }
    proof {
        assert(num >> 0u32 == num) by (bit_vector);
    }
    let mut i: u32 = 1;
    while i < 32
        invariant
            1 <= i <= 32,
            num != 0,
            num >> (i - 1) != 0,
        decreases 32 - i,
    {
        if num >> i == 0u32 {
            proof {
                axiom_u32_leading_zeros(num);
                let c = u32_leading_zeros(num) as u32;
                assert(c < 32);
                if c > 32 - i {
                    lemma_shr_zero_monotone(num, (32 - c) as u32, (i - 1) as u32);
                    assert(false);
                }
                if c < 32 - i {
                    lemma_shr_zero_bit(num, i, (31 - c) as u32);
                    assert(false);
                }
            }
            return 32 - i;
        }
        i = i + 1;
    }
    proof {
        axiom_u32_leading_zeros(num);
        let c = u32_leading_zeros(num) as u32;
        assert(num >> 31 != 0);
        if c > 0 {
            lemma_shr_zero_monotone(num, (32 - c) as u32, 31);
            assert(false);
        }
    }
    0u32
}

/// Number of bits a period's length occupies.
pub fn get_time_max_length(time_period: (u32, u32)) -> (r: u32)
    requires
        time_period.0 <= time_period.1,
    ensures
        r == 32 - u32_leading_zeros((time_period.1 - time_period.0) as u32),
{
    let t_diff = time_period.1 - time_period.0;
    let max_digit = 32 - stable_ctlz(t_diff);
    proof {
        axiom_u32_leading_zeros(t_diff);
    }
    max_digit
}

/// Encodes a moment of a period at the zoom `theta_t`: the offset into the
/// period, dropped to the top `theta_t` bits, together with the number of
/// significant bits that remain.
pub fn periodical_encoding(time: u32, time_period: (u32, u32), theta_t: u32) -> (r: (u32, u32))
    requires
        time_period.0 <= time <= time_period.1,
        1 <= theta_t <= 32,
        u32_leading_zeros((time_period.1 - time_period.0) as u32) <= theta_t,
    ensures
        r.0 == (time - time_period.0) as u32 >> (32 - theta_t) as u32,
        r.1 == theta_t - u32_leading_zeros((time_period.1 - time_period.0) as u32),
{
    let t_diff = time - time_period.0;
    let shift = 32 - theta_t;
    let zoomed_t_diff = t_diff >> shift;
    let time_length = get_time_max_length(time_period);
    proof {
        axiom_u32_leading_zeros((time_period.1 - time_period.0) as u32);
    }
    (zoomed_t_diff, time_length - shift)
}

/// The spatially separated combination: the two spatial bit strings
/// interleaved at the top, the temporal bits below them.
pub open spec fn spec_mix_separate(
    b1: u128,
    b2: u128,
    b3: u128,
    geo: u32,
    time: u32,
    i: int,
    acc: u128,
) -> u128
    decreases geo - i,
{
    if i < 0 || i >= geo {
        acc
    } else {
        let digit = 2 * geo + time;
        let acc2 = acc | ((b1 & (1u128 << ((geo - i - 1) as u128))) << ((digit - i - geo) as u128))
            | ((b2 & (1u128 << ((geo - i - 1) as u128))) << ((digit - 1 - i - geo) as u128));
        spec_mix_separate(b1, b2, b3, geo, time, i + 1, acc2)
    }
}

/// One interleaving step of the two spatial strings at cursor `g`, placed
/// under `curr` total remaining digits.
pub open spec fn spec_geo_step(b1: u128, b2: u128, g: u32, curr: u32, acc: u128) -> u128 {
    acc | ((b1 & (1u128 << ((g - 1) as u128))) << ((curr - g) as u128)) | ((b2 & (1u128 << ((g
        - 1) as u128))) << ((curr - 1 - g) as u128))
}

/// One step of the temporal string at cursor `t`, placed under `curr`
/// total remaining digits.
pub open spec fn spec_time_step(b3: u128, t: u32, curr: u32, acc: u128) -> u128 {
    acc | ((b3 & (1u128 << ((t - 1) as u128))) << ((curr - t) as u128))
}

/// The leading spatial-only phase of the interleaved combination, running
/// while the spatial cursor exceeds the temporal one.
pub open spec fn spec_mix_lead_geo(b1: u128, b2: u128, g: u32, t: u32, curr: u32, acc: u128) -> (
    u128,
    u32,
    u32,
)
    decreases g,
{
    if g <= t || g == 0 {
        (acc, g, curr)
    } else {
        spec_mix_lead_geo(
            b1,
            b2,
            (g - 1) as u32,
            t,
            (curr - 2) as u32,
            spec_geo_step(b1, b2, g, curr, acc),
        )
    }
}

/// The leading temporal-only phase, running while the temporal cursor
/// exceeds the spatial one.
pub open spec fn spec_mix_lead_time(b3: u128, g: u32, t: u32, curr: u32, acc: u128) -> (
    u128,
    u32,
    u32,
)
    decreases t,
{
    if g >= t || t == 0 {
        (acc, t, curr)
    } else {
        spec_mix_lead_time(
            b3,
            g,
            (t - 1) as u32,
            (curr - 1) as u32,
            spec_time_step(b3, t, curr, acc),
        )
    }
}

/// The paired phase: one spatial and one temporal step per round until
/// both cursors run out.
pub open spec fn spec_mix_pair(b1: u128, b2: u128, b3: u128, g: u32, t: u32, curr: u32, acc: u128) -> u128
    decreases g + t,
{
    if g == 0 && t == 0 {
        acc
    } else {
        let (acc1, g1, curr1) = if g > 0 {
            (spec_geo_step(b1, b2, g, curr, acc), (g - 1) as u32, (curr - 2) as u32)
        } else {
            (acc, g, curr)
        };
        let (acc2, t2, curr2) = if t > 0 {
            (spec_time_step(b3, t, curr1, acc1), (t - 1) as u32, (curr1 - 1) as u32)
        } else {
            (acc1, t, curr1)
        };
        spec_mix_pair(b1, b2, b3, g1, t2, curr2, acc2)
    }
}

/// The interleaved combination of the three masked bit strings.
pub open spec fn spec_mix_interleaved(b1: u128, b2: u128, b3: u128, geo: u32, time: u32) -> u128 {
    let curr = 2 * geo + time;
    let (acc_a, g_a, curr_a) = spec_mix_lead_geo(b1, b2, geo, time, (curr) as u32, 0);
    let (acc_b, t_b, curr_b) = spec_mix_lead_time(b3, g_a, time, curr_a, acc_a);
    spec_mix_pair(b1, b2, b3, g_a, t_b, curr_b, acc_b)
}

/// The masked spatial component of a raw bit string.
pub open spec fn spec_geo_masked(b: u32, geo: u32) -> u128 {
    (b & (0xffff_ffffu32 >> ((32 - geo) as u32))) as u128
}

/// The masked temporal component of a raw bit string.
pub open spec fn spec_time_masked(b: u32, time: u32) -> u128 {
    (b & (0xffff_ffffu32 >> ((32 - time) as u32))) as u128
}

/// Combines the two spatial bit strings of `geo_length` bits and the
/// temporal bit string of `time_length` bits into one value, either
/// interleaved from the top or spatially separated, together with the
/// combined bit length.
pub fn mix(mix_type: &MixType, b1: u32, b2: u32, geo_length: u32, b3: u32, time_length: u32) -> (r:
    (u128, u32))
    requires
        1 <= geo_length <= 32,
        1 <= time_length <= 32,
    ensures
        r.1 == 2 * geo_length + time_length,
        r.0 == (match mix_type {
            MixType::Seperate => spec_mix_separate(
                spec_geo_masked(b1, geo_length),
                spec_geo_masked(b2, geo_length),
                spec_time_masked(b3, time_length),
                geo_length,
                time_length,
                0,
                spec_time_masked(b3, time_length),
            ),
            MixType::Mix => spec_mix_interleaved(
                spec_geo_masked(b1, geo_length),
                spec_geo_masked(b2, geo_length),
                spec_time_masked(b3, time_length),
                geo_length,
                time_length,
            ),
        }),
{
    let geo_bit_mask = u32::MAX >> (32 - geo_length);
    let time_bit_mask = u32::MAX >> (32 - time_length);
    match mix_type {
        MixType::Seperate => {
            let b1m = (b1 & geo_bit_mask) as u128;
            let b2m = (b2 & geo_bit_mask) as u128;
            let b3m = (b3 & time_bit_mask) as u128;
            let digit = 2 * geo_length + time_length;
            let mut mixed: u128 = b3m;
            let mut i: u32 = 0;
            while i < geo_length
                invariant
                    i <= geo_length,
                    1 <= geo_length <= 32,
                    1 <= time_length <= 32,
                    digit == 2 * geo_length + time_length,
                    spec_mix_separate(b1m, b2m, b3m, geo_length, time_length, 0, b3m)
                        == spec_mix_separate(b1m, b2m, b3m, geo_length, time_length, i as int, mixed),
                decreases geo_length - i,
            {
                mixed = mixed | ((b1m & (1u128 << ((geo_length - i - 1) as u128))) << ((digit - i
                    - geo_length) as u128));
                mixed = mixed | ((b2m & (1u128 << ((geo_length - i - 1) as u128))) << ((digit - 1
                    - i - geo_length) as u128));
                i = i + 1;
            }
            (mixed, digit)
        },
        MixType::Mix => {
            let b1m = (b1 & geo_bit_mask) as u128;
            let b2m = (b2 & geo_bit_mask) as u128;
            let b3m = (b3 & time_bit_mask) as u128;
            let mut geo_cursor = geo_length;
            let mut time_cursor = time_length;
            let mut curr_digit = 2 * geo_length + time_length;
            let mut mixed: u128 = 0;
            let ghost phase_a = spec_mix_lead_geo(
                b1m,
                b2m,
                geo_length,
                time_length,
                (2 * geo_length + time_length) as u32,
                0,
            );
            while geo_cursor > time_cursor
                invariant
                    1 <= geo_length <= 32,
                    1 <= time_length <= 32,
                    time_cursor == time_length,
                    geo_cursor <= geo_length,
                    curr_digit == 2 * geo_cursor + time_cursor,
                    phase_a == spec_mix_lead_geo(
                        b1m,
                        b2m,
                        geo_cursor,
                        time_cursor,
                        curr_digit,
                        mixed,
                    ),
                decreases geo_cursor,
            {
                mixed = mixed | ((b1m & (1u128 << ((geo_cursor - 1) as u128))) << ((curr_digit
                    - geo_cursor) as u128));
                mixed = mixed | ((b2m & (1u128 << ((geo_cursor - 1) as u128))) << ((curr_digit - 1
                    - geo_cursor) as u128));
                curr_digit = curr_digit - 2;
                geo_cursor = geo_cursor - 1;
            }
            proof {
                assert(phase_a == (mixed, geo_cursor, curr_digit));
            }
            let ghost phase_b = spec_mix_lead_time(b3m, geo_cursor, time_length, curr_digit, mixed);
            while geo_cursor < time_cursor
                invariant
                    geo_cursor <= time_cursor <= time_length <= 32,
                    curr_digit == 2 * geo_cursor + time_cursor,
                    phase_b == spec_mix_lead_time(b3m, geo_cursor, time_cursor, curr_digit, mixed),
                decreases time_cursor,
            {
                mixed = mixed | ((b3m & (1u128 << ((time_cursor - 1) as u128))) << ((curr_digit
                    - time_cursor) as u128));
                curr_digit = curr_digit - 1;
                time_cursor = time_cursor - 1;
            }
            proof {
                assert(phase_b == (mixed, time_cursor, curr_digit));
            }
            let ghost result = spec_mix_pair(
                b1m,
                b2m,
                b3m,
                geo_cursor,
                time_cursor,
                curr_digit,
                mixed,
            );
            while geo_cursor > 0 || time_cursor > 0
                invariant
                    geo_cursor == time_cursor,
                    geo_cursor <= 32,
                    curr_digit == 3 * geo_cursor,
                    result == spec_mix_pair(
                        b1m,
                        b2m,
                        b3m,
                        geo_cursor,
                        time_cursor,
                        curr_digit,
                        mixed,
                    ),
                decreases geo_cursor + time_cursor,
            {
                if geo_cursor > 0 {
                    mixed = mixed | ((b1m & (1u128 << ((geo_cursor - 1) as u128))) << ((curr_digit
                        - geo_cursor) as u128));
                    mixed = mixed | ((b2m & (1u128 << ((geo_cursor - 1) as u128))) << ((curr_digit
                        - 1 - geo_cursor) as u128));
                    curr_digit = curr_digit - 2;
                    geo_cursor = geo_cursor - 1;
                }
                if time_cursor > 0 {
                    mixed = mixed | ((b3m & (1u128 << ((time_cursor - 1) as u128))) << ((curr_digit
                        - time_cursor) as u128));
                    curr_digit = curr_digit - 1;
                    time_cursor = time_cursor - 1;
                }
            }
            (mixed, 2 * geo_length + time_length)
        },
    }
}

/// The value of one lower-case hexadecimal digit.
pub open spec fn spec_hex_val(c: u8) -> Option<u8> {
    if 48 <= c <= 57 {
        Some((c - 48) as u8)
    } else if 97 <= c <= 102 {
        Some((c - 87) as u8)
    } else {
        None
    }
}

/// Decodes one lower-case hexadecimal digit.
pub fn hex_to_num(c: u8) -> (r: Option<u8>)
    ensures
        r == spec_hex_val(c),
{
    if 48 <= c && c <= 57 {
        Some(c - 48)
    } else if 97 <= c && c <= 102 {
        Some(c - 87)
    } else {
        None
    }
}

/// The bytes a line of hexadecimal digit pairs spells; a trailing odd
/// digit is dropped, so only whole byte pairs count.
pub open spec fn spec_hex_key(line: Seq<u8>, i: int) -> Option<Seq<u8>>
    decreases line.len() / 2 - i,
{
    if i < 0 || i >= line.len() / 2 {
        Some(Seq::empty())
    } else {
        match (spec_hex_val(line[2 * i]), spec_hex_val(line[2 * i + 1])) {
            (Some(h), Some(l)) => match spec_hex_key(line, i + 1) {
                Some(rest) => Some(seq![(16 * h + l) as u8] + rest),
                None => None,
            },
            _ => None,
        }
    }
}

/// Decodes a line of lower-case hexadecimal digit pairs into key bytes;
/// `None` when a digit is invalid.
pub fn decode_hex_key(line: &[u8]) -> (r: Option<Vec<u8>>)
    ensures
        match r {
            Some(v) => Some(v@) == spec_hex_key(line@, 0),
            None => spec_hex_key(line@, 0) is None,
        },
{
    let n = line.len() / 2;
    let mut out: Vec<u8> = Vec::new();
    let mut i: usize = 0;
    while i < n
        invariant
            i <= n,
            n == line@.len() / 2,
            spec_hex_key(line@, 0) == (match spec_hex_key(line@, i as int) {
                Some(rest) => Some(out@ + rest),
                None => None::<Seq<u8>>,
            }),
        decreases n - i,
    {
        let h = match hex_to_num(line[2 * i]) {
            Some(v) => v,
            None => {
                return None;
            },
        };
        let l = match hex_to_num(line[2 * i + 1]) {
            Some(v) => v,
            None => {
                return None;
            },
        };
        let ghost out0 = out@;
        let b = 16 * h + l;
        out.push(b);
        proof {
            if spec_hex_key(line@, i + 1) is Some {
                let rest = spec_hex_key(line@, i + 1).unwrap();
                assert(out0 + (seq![b] + rest) =~= out@ + rest);
            }
        }
        i = i + 1;
    }
    proof {
        assert(spec_hex_key(line@, n as int) == Some(Seq::<u8>::empty()));
        assert(out@ + Seq::<u8>::empty() =~= out@);
    }
    Some(out)
}

/// Packs the low `bit_length` bits of the mixed value into whole bytes,
/// keeping only the bytes the bits occupy.
pub fn base8_encoding(mixed: &u128, bit_length: u32) -> (r: Vec<u8>)
    requires
        1 <= bit_length <= 128,
    ensures
        r@ == spec_u128_tail_bytes(*mixed, (bit_length - 1) as int / 8 + 1),
{
    let count = ((bit_length - 1) / 8 + 1) as usize;
    u128_tail_bytes(*mixed, count)
}

} // verus!
