//! The binary field parsers in both flavors, against native decoding.

use gm_utils::parsing::{complete, streaming, ParseError};

#[test]
fn streaming_and_complete_differ_only_on_short_input() {
    // one byte of a two-byte field: more input needed vs hard failure
    let short = [0x01u8];
    assert_eq!(streaming::le_u16(&short), Err(ParseError::Incomplete));
    assert_eq!(complete::le_u16(&short), Err(ParseError::Malformed));
    // two complete bytes decode identically in both flavors
    let full = [0x01u8, 0x02];
    let a = complete::le_u16(&full).unwrap();
    let b = streaming::le_u16(&full).unwrap();
    assert_eq!(a.1, b.1);
    assert_eq!(a.1, u16::from_le_bytes(full));
}

#[test]
fn unsigned_fields_match_native_decoding() {
    let data = [0x78u8, 0x56, 0x34, 0x12, 0xaa, 0xbb, 0xcc, 0xdd, 0x99];
    let (rest, v8) = complete::le_u8(&data).unwrap();
    assert_eq!(v8, 0x78);
    assert_eq!(rest.len(), 8);
    let (_, v16) = complete::le_u16(&data).unwrap();
    assert_eq!(v16, 0x5678);
    let (_, v32) = complete::le_u32(&data).unwrap();
    assert_eq!(v32, 0x12345678);
    let (rest64, v64) = complete::le_u64(&data).unwrap();
    assert_eq!(v64, 0xddccbbaa12345678);
    assert_eq!(rest64, &[0x99]);
}

#[test]
fn signed_fields_match_native_decoding() {
    let neg = [0xffu8, 0xff, 0xff, 0xff, 0xff, 0xff, 0xff, 0xff];
    assert_eq!(complete::le_i8(&neg).unwrap().1, -1i8);
    assert_eq!(complete::le_i16(&neg).unwrap().1, -1i16);
    assert_eq!(complete::le_i32(&neg).unwrap().1, -1i32);
    assert_eq!(complete::le_i64(&neg).unwrap().1, -1i64);
    let min = [0x00u8, 0x80];
    assert_eq!(complete::le_i16(&min).unwrap().1, i16::MIN);
    assert_eq!(
        streaming::le_i64(&[0u8, 0, 0, 0, 0, 0, 0, 0x80]).unwrap().1,
        i64::MIN
    );
    let mixed = [0x2eu8, 0xfb];
    assert_eq!(
        complete::le_i16(&mixed).unwrap().1,
        i16::from_le_bytes(mixed)
    );
}

#[test]
fn float_fields_carry_the_bit_pattern() {
    // 2.5 as a 16-bit float is 0x4100
    let h = [0x00u8, 0x41];
    assert_eq!(complete::le_f16(&h).unwrap().1, 0x4100u16);
    assert_eq!(streaming::le_f16(&[0x01u8]), Err(ParseError::Incomplete));
    assert_eq!(complete::le_f16(&[0x01u8]), Err(ParseError::Malformed));
    let f = 2.5f32.to_le_bytes();
    assert_eq!(complete::le_f32(&f).unwrap().1, 2.5f32.to_bits());
    let d = (-7.25f64).to_le_bytes();
    assert_eq!(complete::le_f64(&d).unwrap().1, (-7.25f64).to_bits());
}

#[test]
fn bool_field() {
    assert_eq!(complete::bool(&[0x00, 0x05]).unwrap(), (&[0x05u8][..], false));
    assert_eq!(complete::bool(&[0x07]).unwrap().1, true);
    assert_eq!(complete::bool(&[]), Err(ParseError::Malformed));
    assert_eq!(streaming::bool(&[]), Err(ParseError::Incomplete));
}

#[test]
fn string_field() {
    let input = b"foo\0bar";
    let (rest, s) = complete::string(input).unwrap();
    assert_eq!(s, b"foo\0");
    assert_eq!(rest, b"bar");
    // no terminator in sight: malformed vs more input needed
    assert_eq!(complete::string(b"foo"), Err(ParseError::Malformed));
    assert_eq!(streaming::string(b"foo"), Err(ParseError::Incomplete));
    let (rest2, s2) = streaming::string(b"\0tail").unwrap();
    assert_eq!(s2, b"\0");
    assert_eq!(rest2, b"tail");
}
