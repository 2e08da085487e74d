//! The boundary's numbers are 64-bit IEEE 754 values, carried here as their
//! bit patterns. This module states and computes, over plain integers, the
//! two conversions the marshaling contract needs: the exact bit pattern of
//! a small integer, and the saturating truncation of a bit pattern back to
//! an integer range, as the native numeric casts behave.

use vstd::prelude::*;

use vstd::arithmetic::power2::{
    lemma2_to64,
    lemma2_to64_rest,
    lemma_pow2_adds,
    lemma_pow2_pos,
    lemma_pow2_strictly_increases,
    pow2,
};
use vstd::bits::{lemma_u64_shl_is_mul, lemma_u64_shr_is_div};

verus! {

/// The position of the highest set bit of `m`; zero for zero.
pub open spec fn msb(m: u64) -> int
    decreases m,
{
    if m <= 1 {
        0
    } else {
        1 + msb((m / 2) as u64)
    }
}

/// The position of the highest set bit is never negative.
pub proof fn lemma_msb_nonneg(m: u64)
    ensures
        msb(m) >= 0,
    decreases m,
{
    if m > 1 {
        lemma_msb_nonneg((m / 2) as u64);
    }
}

/// The highest set bit brackets the value between two powers of two.
pub proof fn lemma_msb_bounds(m: u64)
    requires
        m >= 1,
    ensures
        0 <= msb(m) <= 63,
        pow2(msb(m) as nat) <= m,
        m < pow2((msb(m) + 1) as nat),
    decreases m,
{
    lemma_msb_nonneg(m);
    if m <= 1 {
        lemma2_to64();
    } else {
        lemma_msb_bounds((m / 2) as u64);
        let p = msb((m / 2) as u64);
        lemma2_to64();
        lemma_pow2_adds(p as nat, 1);
        lemma_pow2_adds((p + 1) as nat, 1);
        assert(pow2((p + 1) as nat) == 2 * pow2(p as nat));
        assert(pow2((p + 2) as nat) == 2 * pow2((p + 1) as nat));
        if p + 1 >= 64 {
            lemma2_to64();
            lemma2_to64_rest();
            if p + 1 > 64 {
                lemma_pow2_strictly_increases(64, (p + 1) as nat);
            }
            assert(pow2((p + 1) as nat) >= pow2(64));
            assert(m < 0x10000000000000000);
        }
    }
}

/// The IEEE 754 64-bit pattern of a nonnegative integer magnitude below
/// two to the fifty-third power, where the conversion is exact.
pub open spec fn f64_bits_of_mag(m: u64) -> u64 {
    if m == 0 {
        0
    } else {
        let p = msb(m);
        (((1023 + p) as u64) << 52u64) | (((m - (1u64 << (p as u64))) as u64) << ((52
            - p) as u64))
    }
}

/// The IEEE 754 64-bit pattern of a signed integer of magnitude below two
/// to the fifty-third power.
pub open spec fn f64_bits_of_int(i: int) -> u64 {
    if i >= 0 {
        f64_bits_of_mag(i as u64)
    } else {
        0x8000000000000000u64 | f64_bits_of_mag((-i) as u64)
    }
}

/// Computes the exact 64-bit floating-point pattern of a small magnitude.
pub fn to_f64_bits_mag(m: u64) -> (r: u64)
    requires
        m < 0x20000000000000,
    ensures
        r == f64_bits_of_mag(m),
{
    if m == 0 {
        return 0;
    }
    let mut t: u64 = m;
    let mut p: u64 = 0;
    proof {
        lemma_msb_bounds(m);
    }
    while t > 1
        invariant
            t >= 1,
            msb(m) == p + msb(t),
            0 <= msb(m) <= 63,
            p <= 63,
        decreases t,
    {
        proof {
            lemma_msb_nonneg((t / 2) as u64);
        }
        t = t / 2;
        p = p + 1;
    }
    proof {
        assert(msb(t) == 0);
        assert(p == msb(m));
        lemma_msb_bounds(m);
        lemma2_to64();
        if p > 52 {
            lemma2_to64_rest();
            if p > 53 {
                lemma_pow2_strictly_increases(53, p as nat);
            }
            assert(pow2(p as nat) >= pow2(53));
            assert(false);
        }
        lemma_u64_shl_is_mul(1u64, p);
        assert((1u64 << p) == pow2(p as nat));
        assert((1u64 << p) <= m);
    }
    ((1023 + p) << 52u64) | ((m - (1u64 << p)) << (52 - p))
}

/// Computes the exact 64-bit floating-point pattern of a small signed
/// integer.
pub fn to_f64_bits(i: i64) -> (r: u64)
    requires
        -0x20000000000000 < i < 0x20000000000000,
    ensures
        r == f64_bits_of_int(i as int),
{
    if i >= 0 {
        to_f64_bits_mag(i as u64)
    } else {
        0x8000000000000000u64 | to_f64_bits_mag((-i) as u64)
    }
}

/// The exponent field of a 64-bit pattern.
pub open spec fn f64_exp(bits: u64) -> int {
    ((bits >> 52u64) & 0x7FF) as int
}

/// The fraction field of a 64-bit pattern.
pub open spec fn f64_frac(bits: u64) -> int {
    (bits & 0xFFFFFFFFFFFFF) as int
}

/// The sign bit of a 64-bit pattern.
pub open spec fn f64_neg(bits: u64) -> bool {
    (bits >> 63u64) == 1
}

/// Whether the pattern is a NaN.
pub open spec fn f64_is_nan(bits: u64) -> bool {
    f64_exp(bits) == 0x7FF && f64_frac(bits) != 0
}

/// Whether the pattern is an infinity.
pub open spec fn f64_is_inf(bits: u64) -> bool {
    f64_exp(bits) == 0x7FF && f64_frac(bits) == 0
}

/// The integer part of a finite pattern's magnitude.
pub open spec fn f64_trunc_mag(bits: u64) -> int {
    let e = f64_exp(bits);
    let f = f64_frac(bits);
    if e == 0 {
        0
    } else if e < 1023 {
        0
    } else if e <= 1075 {
        (f + 0x10000000000000) / pow2((1075 - e) as nat) as int
    } else {
        (f + 0x10000000000000) * pow2((e - 1075) as nat)
    }
}

/// What a native saturating cast of the number to an integer range yields:
/// NaN becomes zero, infinities and out-of-range values clamp to the range,
/// and everything else truncates toward zero.
pub open spec fn f64_cast_sat(bits: u64, lo: int, hi: int) -> int {
    if f64_is_nan(bits) {
        0
    } else if f64_is_inf(bits) {
        if f64_neg(bits) {
            lo
        } else {
            hi
        }
    } else {
        let v = if f64_neg(bits) {
            -f64_trunc_mag(bits)
        } else {
            f64_trunc_mag(bits)
        };
        if v < lo {
            lo
        } else if v > hi {
            hi
        } else {
            v
        }
    }
}

/// Casts the number to an unsigned 64-bit integer as the native saturating
/// cast does.
pub fn f64_bits_to_u64(bits: u64) -> (r: u64)
    ensures
        r as int == f64_cast_sat(bits, 0, u64::MAX as int),
{
    let e: u64 = (bits >> 52) & 0x7FF;
    let f: u64 = bits & 0xFFFFFFFFFFFFF;
    let neg: bool = (bits >> 63) == 1;
    proof {
        lemma2_to64();
        assert(bits & 0xFFFFFFFFFFFFF < 0x10000000000000) by (bit_vector);
    }
    if e == 0x7FF {
        if f != 0 {
            return 0;
        }
        if neg {
            return 0;
        }
        return u64::MAX;
    }
    if e < 1023 {
        return 0;
    }
    let frac: u64 = f | 0x10000000000000;
    proof {
        assert((f | 0x10000000000000u64) == f + 0x10000000000000) by (bit_vector)
            requires
                f < 0x10000000000000u64,
        ;
    }
    if e <= 1075 {
        let sh: u64 = 1075 - e;
        proof {
            lemma_u64_shr_is_div(frac, sh);
            lemma_pow2_pos(sh as nat);
            vstd::arithmetic::div_mod::lemma_div_is_ordered_by_denominator(
                frac as int,
                1,
                pow2(sh as nat) as int,
            );
        }
        let mag: u64 = frac >> sh;
        if neg {
            return 0;
        }
        return mag;
    }
    if neg {
        proof {
            lemma_pow2_pos((e - 1075) as nat);
            assert(f64_trunc_mag(bits) >= frac) by (nonlinear_arith)
                requires
                    f64_trunc_mag(bits) == (f + 0x10000000000000) * pow2((e - 1075) as nat),
                    frac == f + 0x10000000000000,
                    pow2((e - 1075) as nat) >= 1,
                    f >= 0,
            ;
        }
        return 0;
    }
    let sh: u64 = e - 1075;
    if sh >= 12 {
        proof {
            lemma2_to64();
            if sh > 12 {
                lemma_pow2_strictly_increases(12, sh as nat);
            }
            assert(f64_trunc_mag(bits) > u64::MAX) by (nonlinear_arith)
                requires
                    f64_trunc_mag(bits) == (f + 0x10000000000000) * pow2((e - 1075) as nat),
                    f >= 0,
                    pow2((e - 1075) as nat) >= 4096,
            ;
        }
        return u64::MAX;
    }
    proof {
        lemma2_to64();
        if sh > 0 {
            lemma_pow2_strictly_increases(sh as nat, 12);
        }
        assert(frac * pow2(sh as nat) <= u64::MAX) by (nonlinear_arith)
            requires
                frac < 0x20000000000000,
                0 < pow2(sh as nat) <= 2048,
        ;
        lemma_u64_shl_is_mul(frac, sh);
    }
    frac << sh
}

/// Casts the number to a signed 64-bit integer as the native saturating
/// cast does.
pub fn f64_bits_to_i64(bits: u64) -> (r: i64)
    ensures
        r as int == f64_cast_sat(bits, i64::MIN as int, i64::MAX as int),
{
    let e: u64 = (bits >> 52) & 0x7FF;
    let f: u64 = bits & 0xFFFFFFFFFFFFF;
    let neg: bool = (bits >> 63) == 1;
    proof {
        lemma2_to64();
        assert(bits & 0xFFFFFFFFFFFFF < 0x10000000000000) by (bit_vector);
    }
    if e == 0x7FF {
        if f != 0 {
            return 0;
        }
        if neg {
            return i64::MIN;
        }
        return i64::MAX;
    }
    if e < 1023 {
        return 0;
    }
    let frac: u64 = f | 0x10000000000000;
    proof {
        assert((f | 0x10000000000000u64) == f + 0x10000000000000) by (bit_vector)
            requires
                f < 0x10000000000000u64,
        ;
    }
    if e <= 1075 {
        let sh: u64 = 1075 - e;
        proof {
            lemma_u64_shr_is_div(frac, sh);
            lemma_pow2_pos(sh as nat);
            vstd::arithmetic::div_mod::lemma_div_is_ordered_by_denominator(
                frac as int,
                1,
                pow2(sh as nat) as int,
            );
        }
        let mag: u64 = frac >> sh;
        if neg {
            return -(mag as i64);
        }
        return mag as i64;
    }
    let sh: u64 = e - 1075;
    if sh >= 11 {
        proof {
            lemma2_to64();
            if sh > 11 {
                lemma_pow2_strictly_increases(11, sh as nat);
            }
            assert(f64_trunc_mag(bits) >= 0x8000000000000000) by (nonlinear_arith)
                requires
                    f64_trunc_mag(bits) == (f + 0x10000000000000) * pow2((e - 1075) as nat),
                    f >= 0,
                    pow2((e - 1075) as nat) >= 2048,
            ;
        }
        if neg {
            return i64::MIN;
        }
        return i64::MAX;
    }
    proof {
        lemma2_to64();
        if sh > 0 {
            lemma_pow2_strictly_increases(sh as nat, 11);
        }
        assert(frac * pow2(sh as nat) < 0x8000000000000000) by (nonlinear_arith)
            requires
                frac < 0x20000000000000,
                0 < pow2(sh as nat) <= 1024,
        ;
        lemma_u64_shl_is_mul(frac, sh);
    }
    let mag: u64 = frac << sh;
    if neg {
        return -(mag as i64);
    }
    mag as i64
}

/// Clamping the saturating cast to a narrower range inside the original one
/// is the saturating cast to the narrower range.
pub proof fn lemma_sat_narrow(bits: u64, lo: int, hi: int, lo2: int, hi2: int)
    requires
        lo <= lo2 <= 0,
        0 <= hi2 <= hi,
    ensures
        f64_cast_sat(bits, lo2, hi2) == (if f64_cast_sat(bits, lo, hi) < lo2 {
            lo2
        } else if f64_cast_sat(bits, lo, hi) > hi2 {
            hi2
        } else {
            f64_cast_sat(bits, lo, hi)
        }),
{
}

} // verus!
