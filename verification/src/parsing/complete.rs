//! Complete flavor: the whole input is known, so running out of bytes
//! before a field is complete is a hard failure.

use vstd::prelude::*;

use super::{
    le_value,
    lemma_le_value_bound,
    le_signed,
    nul_pos,
    take_le,
    take_string,
    ParseError,
};

verus! {

/// Reads a little-endian unsigned 8-bit field.
pub fn le_u8(input: &[u8]) -> (r: Result<(&[u8], u8), ParseError>)
    ensures
        r is Ok <==> input@.len() >= 1,
        r matches Ok((rest, v)) ==> rest@ == input@.skip(1) && v as int == le_value(
            input@,
            1,
        ),
        r matches Err(e) ==> e == ParseError::Malformed,
{
    match take_le(input, 1) {
        Some((rest, v)) => {
            proof {
                super::lemma_pow256_concrete();
                lemma_le_value_bound(input@, 1);
            }
            Ok((rest, v as u8))
        },
        None => Err(ParseError::Malformed),
    }
}

/// Reads a little-endian signed 8-bit field (two's complement).
pub fn le_i8(input: &[u8]) -> (r: Result<(&[u8], i8), ParseError>)
    ensures
        r is Ok <==> input@.len() >= 1,
        r matches Ok((rest, v)) ==> rest@ == input@.skip(1) && v as int == le_signed(
            input@,
            1,
        ),
        r matches Err(e) ==> e == ParseError::Malformed,
{
    match take_le(input, 1) {
        Some((rest, v)) => {
            proof {
                super::lemma_pow256_concrete();
                lemma_le_value_bound(input@, 1);
            }
            let s: i8 = if v < 0x80u64 {
                v as i8
            } else if v == 0x80u64 {
                i8::MIN
            } else {
                -((0x100u64 - v) as i8)
            };
            Ok((rest, s))
        },
        None => Err(ParseError::Malformed),
    }
}

/// Reads a little-endian unsigned 16-bit field.
pub fn le_u16(input: &[u8]) -> (r: Result<(&[u8], u16), ParseError>)
    ensures
        r is Ok <==> input@.len() >= 2,
        r matches Ok((rest, v)) ==> rest@ == input@.skip(2) && v as int == le_value(
            input@,
            2,
        ),
        r matches Err(e) ==> e == ParseError::Malformed,
{
    match take_le(input, 2) {
        Some((rest, v)) => {
            proof {
                super::lemma_pow256_concrete();
                lemma_le_value_bound(input@, 2);
            }
            Ok((rest, v as u16))
        },
        None => Err(ParseError::Malformed),
    }
}

/// Reads a little-endian signed 16-bit field (two's complement).
pub fn le_i16(input: &[u8]) -> (r: Result<(&[u8], i16), ParseError>)
    ensures
        r is Ok <==> input@.len() >= 2,
        r matches Ok((rest, v)) ==> rest@ == input@.skip(2) && v as int == le_signed(
            input@,
            2,
        ),
        r matches Err(e) ==> e == ParseError::Malformed,
{
    match take_le(input, 2) {
        Some((rest, v)) => {
            proof {
                super::lemma_pow256_concrete();
                lemma_le_value_bound(input@, 2);
            }
            let s: i16 = if v < 0x8000u64 {
                v as i16
            } else if v == 0x8000u64 {
                i16::MIN
            } else {
                -((0x10000u64 - v) as i16)
            };
            Ok((rest, s))
        },
        None => Err(ParseError::Malformed),
    }
}

/// Reads a little-endian unsigned 32-bit field.
pub fn le_u32(input: &[u8]) -> (r: Result<(&[u8], u32), ParseError>)
    ensures
        r is Ok <==> input@.len() >= 4,
        r matches Ok((rest, v)) ==> rest@ == input@.skip(4) && v as int == le_value(
            input@,
            4,
        ),
        r matches Err(e) ==> e == ParseError::Malformed,
{
    match take_le(input, 4) {
        Some((rest, v)) => {
            proof {
                super::lemma_pow256_concrete();
                lemma_le_value_bound(input@, 4);
            }
            Ok((rest, v as u32))
        },
        None => Err(ParseError::Malformed),
    }
}

/// Reads a little-endian signed 32-bit field (two's complement).
pub fn le_i32(input: &[u8]) -> (r: Result<(&[u8], i32), ParseError>)
    ensures
        r is Ok <==> input@.len() >= 4,
        r matches Ok((rest, v)) ==> rest@ == input@.skip(4) && v as int == le_signed(
            input@,
            4,
        ),
        r matches Err(e) ==> e == ParseError::Malformed,
{
    match take_le(input, 4) {
        Some((rest, v)) => {
            proof {
                super::lemma_pow256_concrete();
                lemma_le_value_bound(input@, 4);
            }
            let s: i32 = if v < 0x80000000u64 {
                v as i32
            } else if v == 0x80000000u64 {
                i32::MIN
            } else {
                -((0x100000000u64 - v) as i32)
            };
            Ok((rest, s))
        },
        None => Err(ParseError::Malformed),
    }
}

/// Reads a little-endian unsigned 64-bit field.
pub fn le_u64(input: &[u8]) -> (r: Result<(&[u8], u64), ParseError>)
    ensures
        r is Ok <==> input@.len() >= 8,
        r matches Ok((rest, v)) ==> rest@ == input@.skip(8) && v as int == le_value(
            input@,
            8,
        ),
        r matches Err(e) ==> e == ParseError::Malformed,
{
    match take_le(input, 8) {
        Some((rest, v)) => {
            proof {
                super::lemma_pow256_concrete();
                lemma_le_value_bound(input@, 8);
            }
            Ok((rest, v as u64))
        },
        None => Err(ParseError::Malformed),
    }
}

/// Reads a little-endian signed 64-bit field (two's complement).
pub fn le_i64(input: &[u8]) -> (r: Result<(&[u8], i64), ParseError>)
    ensures
        r is Ok <==> input@.len() >= 8,
        r matches Ok((rest, v)) ==> rest@ == input@.skip(8) && v as int == le_signed(input@, 8),
        r matches Err(e) ==> e == ParseError::Malformed,
{
    match take_le(input, 8) {
        Some((rest, v)) => {
            proof {
                super::lemma_pow256_concrete();
                lemma_le_value_bound(input@, 8);
            }
            let s: i64 = if v < 0x8000000000000000u64 {
                v as i64
            } else if v == 0x8000000000000000u64 {
                i64::MIN
            } else {
                -(((u64::MAX - v) + 1) as i64)
            };
            Ok((rest, s))
        },
        None => Err(ParseError::Malformed),
    }
}

/// Reads a little-endian 16-bit floating-point field as its IEEE 754
/// bit pattern; interpreting the bits is the caller's business.
pub fn le_f16(input: &[u8]) -> (r: Result<(&[u8], u16), ParseError>)
    ensures
        r is Ok <==> input@.len() >= 2,
        r matches Ok((rest, v)) ==> rest@ == input@.skip(2) && v as int == le_value(
            input@,
            2,
        ),
        r matches Err(e) ==> e == ParseError::Malformed,
{
    match take_le(input, 2) {
        Some((rest, v)) => {
            proof {
                super::lemma_pow256_concrete();
                lemma_le_value_bound(input@, 2);
            }
            Ok((rest, v as u16))
        },
        None => Err(ParseError::Malformed),
    }
}

/// Reads a little-endian 32-bit floating-point field as its IEEE 754
/// bit pattern; interpreting the bits is the caller's business.
pub fn le_f32(input: &[u8]) -> (r: Result<(&[u8], u32), ParseError>)
    ensures
        r is Ok <==> input@.len() >= 4,
        r matches Ok((rest, v)) ==> rest@ == input@.skip(4) && v as int == le_value(
            input@,
            4,
        ),
        r matches Err(e) ==> e == ParseError::Malformed,
{
    match take_le(input, 4) {
        Some((rest, v)) => {
            proof {
                super::lemma_pow256_concrete();
                lemma_le_value_bound(input@, 4);
            }
            Ok((rest, v as u32))
        },
        None => Err(ParseError::Malformed),
    }
}

/// Reads a little-endian 64-bit floating-point field as its IEEE 754
/// bit pattern; interpreting the bits is the caller's business.
pub fn le_f64(input: &[u8]) -> (r: Result<(&[u8], u64), ParseError>)
    ensures
        r is Ok <==> input@.len() >= 8,
        r matches Ok((rest, v)) ==> rest@ == input@.skip(8) && v as int == le_value(
            input@,
            8,
        ),
        r matches Err(e) ==> e == ParseError::Malformed,
{
    match take_le(input, 8) {
        Some((rest, v)) => {
            proof {
                super::lemma_pow256_concrete();
                lemma_le_value_bound(input@, 8);
            }
            Ok((rest, v as u64))
        },
        None => Err(ParseError::Malformed),
    }
}

/// Reads a one-byte boolean: zero is `false`, any other byte is `true`.
pub fn bool(input: &[u8]) -> (r: Result<(&[u8], bool), ParseError>)
    ensures
        r is Ok <==> input@.len() >= 1,
        r matches Ok((rest, v)) ==> rest@ == input@.skip(1) && v == (input@[0] != 0),
        r matches Err(e) ==> e == ParseError::Malformed,
{
    match take_le(input, 1) {
        Some((rest, v)) => {
            proof {
                assert(le_value(input@.drop_first(), 0) == 0);
                assert(le_value(input@, 1) == input@[0]);
            }
            Ok((rest, v != 0))
        },
        None => Err(ParseError::Malformed),
    }
}

/// Reads a null-terminated string: the bytes through the first null byte,
/// terminator included.
pub fn string(input: &[u8]) -> (r: Result<(&[u8], &[u8]), ParseError>)
    ensures
        r is Ok <==> nul_pos(input@) < input@.len(),
        r matches Ok((rest, s)) ==> s@ == input@.take(nul_pos(input@) + 1) && rest@ == input@.skip(
            nul_pos(input@) + 1,
        ),
        r matches Err(e) ==> e == ParseError::Malformed,
{
    match take_string(input) {
        Some((s, rest)) => Ok((rest, s)),
        None => Err(ParseError::Malformed),
    }
}

} // verus!
