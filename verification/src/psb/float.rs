//! IEEE-754 conversions between single- and double-precision bit patterns.
//! PSB stores a float either as 4 bytes (single) or 8 bytes (double); the
//! value tree keeps every float as a double.
use vstd::prelude::*;

verus! {

/// Number of left shifts, from `s` on, that bring the top set bit of a
/// single-precision subnormal mantissa to bit 23.
pub open spec fn subnormal_shift(m: u32, s: nat) -> nat
    decreases 24 - s,
{
    if s >= 23 || (m << (s as u32)) & 0x0080_0000u32 != 0 {
        s
    } else {
        subnormal_shift(m, s + 1)
    }
}

/// The double with the same value as the single with bits `b`. A NaN keeps
/// its sign and payload and comes out quiet.
pub open spec fn f32_to_f64_bits(b: u32) -> u64 {
    let sign = ((b >> 31u32) as u64) << 63u64;
    let e = (b >> 23u32) & 0xffu32;
    let m = b & 0x007f_ffffu32;
    if e == 0xffu32 {
        if m == 0 {
            sign | 0x7ff0_0000_0000_0000u64
        } else {
            sign | 0x7ff8_0000_0000_0000u64 | ((m as u64) << 29u64)
        }
    } else if e == 0 {
        if m == 0 {
            sign
        } else {
            let s = subnormal_shift(m, 0);
            let frac = (m << (s as u32)) & 0x007f_ffffu32;
            sign | (((897 - s) as u64) << 52u64) | ((frac as u64) << 29u64)
        }
    } else {
        sign | ((((e as u64) + 896) as u64) << 52u64) | ((m as u64) << 29u64)
    }
}

/// The single that a double narrows to when the double is exactly representable.
pub open spec fn f64_to_f32_candidate(b: u64) -> u32 {
    let sign = ((b >> 63u64) as u32) << 31u32;
    let e = (b >> 52u64) & 0x7ffu64;
    let m = b & 0x000f_ffff_ffff_ffffu64;
    if e == 0x7ffu64 {
        if m == 0 {
            sign | 0x7f80_0000u32
        } else {
            sign | 0x7fc0_0000u32 | ((m >> 29u64) as u32)
        }
    } else if 897 <= e && e <= 1150 {
        sign | (((e - 896) as u32) << 23u32) | ((m >> 29u64) as u32)
    } else if 874 <= e && e < 897 {
        sign | (((m | 0x0010_0000_0000_0000u64) >> ((926 - e) as u64)) as u32)
    } else {
        sign
    }
}

/// Whether a double converts to a single and back without change.
pub open spec fn f32_exact(b: u64) -> bool {
    f32_to_f64_bits(f64_to_f32_candidate(b)) == b
}

/// Widens single-precision bits to double-precision bits.
pub fn f32_bits_to_f64_bits(b: u32) -> (r: u64)
    ensures
        r == f32_to_f64_bits(b),
{
    let sign = ((b >> 31) as u64) << 63;
    let e = (b >> 23) & 0xff;
    let m = b & 0x007f_ffff;
    if e == 0xff {
        if m == 0 {
            sign | 0x7ff0_0000_0000_0000
        } else {
            sign | 0x7ff8_0000_0000_0000 | ((m as u64) << 29)
        }
    } else if e == 0 {
        if m == 0 {
            sign
        } else {
            let mut s: u32 = 0;
            while s < 23 && (m << s) & 0x0080_0000 == 0
                invariant
                    s <= 23,
                    subnormal_shift(m, s as nat) == subnormal_shift(m, 0),
                decreases 23 - s,
            {
                s = s + 1;
            }
            assert(subnormal_shift(m, s as nat) == s);
            let frac = (m << s) & 0x007f_ffff;
            sign | (((897 - s) as u64) << 52) | ((frac as u64) << 29)
        }
    } else {
        sign | (((e as u64) + 896) << 52) | ((m as u64) << 29)
    }
}

/// Narrows double-precision bits to the single that has the same value, or
/// `None` when no single has it.
pub fn f64_bits_to_f32_bits(b: u64) -> (r: Option<u32>)
    ensures
        f32_exact(b) ==> r == Some(f64_to_f32_candidate(b)),
        !f32_exact(b) ==> r is None,
{
    let sign = ((b >> 63) as u32) << 31;
    let e = (b >> 52) & 0x7ff;
    let m = b & 0x000f_ffff_ffff_ffff;
    let c: u32 = if e == 0x7ff {
        if m == 0 {
            sign | 0x7f80_0000
        } else {
            sign | 0x7fc0_0000 | ((m >> 29) as u32)
        }
    } else if 897 <= e && e <= 1150 {
        sign | (((e - 896) as u32) << 23) | ((m >> 29) as u32)
    } else if 874 <= e && e < 897 {
        sign | (((m | 0x0010_0000_0000_0000) >> (926 - e)) as u32)
    } else {
        sign
    };
    assert(c == f64_to_f32_candidate(b));
    if f32_bits_to_f64_bits(c) == b {
        Some(c)
    } else {
        None
    }
}

/// The value of the double with bits `b` when it is a whole number below
/// 2^64 (negative zero counts as 0); none for a fraction, a negative number,
/// an infinity, a NaN or 2^64 and above.
pub open spec fn f64_whole(b: u64) -> Option<u64> {
    let e = (b >> 52u64) & 0x7ffu64;
    let f = (b & 0x000f_ffff_ffff_ffffu64) | 0x0010_0000_0000_0000u64;
    if b & 0x7fff_ffff_ffff_ffffu64 == 0 {
        Some(0u64)
    } else if b >> 63u64 == 1 || e == 0x7ffu64 || e < 1023 {
        None
    } else if e < 1075 {
        let s = (1075 - e) as u64;
        if f & (((1u64 << s) - 1) as u64) == 0 {
            Some(f >> s)
        } else {
            None
        }
    } else if e <= 1086 {
        Some(f << ((e - 1075) as u64))
    } else {
        None
    }
}

/// Reads a double as a whole number, as [`f64_whole`] says.
pub fn whole_f64(b: u64) -> (r: Option<u64>)
    ensures
        r == f64_whole(b),
{
    let e = (b >> 52u64) & 0x7ffu64;
    let f = (b & 0x000f_ffff_ffff_ffffu64) | 0x0010_0000_0000_0000u64;
    if b & 0x7fff_ffff_ffff_ffffu64 == 0 {
        Some(0)
    } else if b >> 63u64 == 1 || e == 0x7ff || e < 1023 {
        None
    } else if e < 1075 {
        let s = 1075 - e;
        assert(1u64 << s >= 1) by (bit_vector)
            requires
                1 <= s <= 52,
        ;
        if f & ((1u64 << s) - 1) == 0 {
            Some(f >> s)
        } else {
            None
        }
    } else if e <= 1086 {
        Some(f << (e - 1075))
    } else {
        None
    }
}

/// Index of the highest set bit of `n` at or below bit `i` (0 when none).
pub open spec fn top_bit(n: u64, i: u64) -> u64
    decreases i,
{
    if i == 0 || (n >> i) != 0 {
        i
    } else {
        top_bit(n, (i - 1) as u64)
    }
}

/// The bits of the double nearest to `n`, ties to even: what `n as f64`
/// gives.
pub open spec fn u64_to_f64_bits(n: u64) -> u64 {
    if n == 0 {
        0
    } else {
        let e = top_bit(n, 63);
        if e <= 52 {
            (((1023 + e) as u64) << 52u64) | ((n << ((52 - e) as u64)) & 0x000f_ffff_ffff_ffffu64)
        } else {
            let s = (e - 52) as u64;
            let q = n >> s;
            let r = n & (((1u64 << s) - 1) as u64);
            let half = 1u64 << ((s - 1) as u64);
            let q2 = if r > half || (r == half && q & 1 == 1) {
                (q + 1) as u64
            } else {
                q
            };
            if q2 == 0x0020_0000_0000_0000u64 {
                ((1024 + e) as u64) << 52u64
            } else {
                (((1023 + e) as u64) << 52u64) | (q2 & 0x000f_ffff_ffff_ffffu64)
            }
        }
    }
}

/// Converts an integer to double-precision bits, as [`u64_to_f64_bits`] says.
pub fn to_f64_bits(n: u64) -> (r: u64)
    ensures
        r == u64_to_f64_bits(n),
{
    if n == 0 {
        return 0;
    }
    let mut e: u64 = 63;
    while e > 0 && (n >> e) == 0
        invariant
            e <= 63,
            top_bit(n, 63) == top_bit(n, e),
        decreases e,
    {
        e = e - 1;
    }
    assert(top_bit(n, e) == e);
    if e <= 52 {
        ((1023 + e) << 52) | ((n << (52 - e)) & 0x000f_ffff_ffff_ffff)
    } else {
        let s = e - 52;
        let q = n >> s;
        assert(1u64 << s >= 1) by (bit_vector)
            requires
                1 <= s <= 11,
        ;
        let r = n & ((1u64 << s) - 1);
        let half = 1u64 << (s - 1);
        assert(q <= 0x7fff_ffff_ffff_ffff) by (bit_vector)
            requires
                q == n >> s,
                1 <= s <= 11,
        ;
        let q2 = if r > half || (r == half && q & 1 == 1) {
            q + 1
        } else {
            q
        };
        if q2 == 0x0020_0000_0000_0000 {
            (1024 + e) << 52
        } else {
            ((1023 + e) << 52) | (q2 & 0x000f_ffff_ffff_ffff)
        }
    }
}

} // verus!
