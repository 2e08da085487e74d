//! The marshaling contract, the buffer accessor, the generator's decisions
//! and the number conversions, against the native floating-point casts.

use gm_utils::buffer::GmBuffer;
use gm_utils::export::{gm_func, ExportPlan, FnSig, GenericKind, GmFuncError};
use gm_utils::fbits::{f64_bits_to_i64, f64_bits_to_u64, to_f64_bits};
use gm_utils::func::{
    finish_call, return_with_buffer, CallOutcome, CText, F64Bits, GmArg, GmDefault, GmReturn,
    ReturnBuffer,
};
use gm_utils::numtext::{i64_to_string, is_float_text, parse_i64, parse_u64, u64_to_string};

#[test]
fn integer_bits_match_native_casts() {
    for i in [
        0i64, 1, -1, 2, 7, 10, 255, 256, -300, 65535, 123456789, -987654321, 4294967295,
        -4294967296,
    ] {
        assert_eq!(to_f64_bits(i), (i as f64).to_bits());
    }
}

#[test]
fn saturating_casts_match_native_casts() {
    let samples = [
        0.0f64,
        -0.0,
        0.5,
        -0.5,
        1.0,
        -1.0,
        2.75,
        -2.75,
        255.9,
        256.0,
        -129.5,
        1e18,
        -1e18,
        1e300,
        -1e300,
        f64::INFINITY,
        f64::NEG_INFINITY,
        f64::NAN,
        9.007199254740992e15,
        18446744073709551615.0,
        18446744073709551616.0,
    ];
    for x in samples {
        let bits = x.to_bits();
        assert_eq!(f64_bits_to_u64(bits), x as u64, "u64 of {x}");
        assert_eq!(f64_bits_to_i64(bits), x as i64, "i64 of {x}");
        assert_eq!(u8::to_arg(F64Bits(bits)), x as u8, "u8 of {x}");
        assert_eq!(i8::to_arg(F64Bits(bits)), x as i8, "i8 of {x}");
        assert_eq!(u16::to_arg(F64Bits(bits)), x as u16, "u16 of {x}");
        assert_eq!(i16::to_arg(F64Bits(bits)), x as i16, "i16 of {x}");
        assert_eq!(u32::to_arg(F64Bits(bits)), x as u32, "u32 of {x}");
        assert_eq!(i32::to_arg(F64Bits(bits)), x as i32, "i32 of {x}");
        assert_eq!(usize::to_arg(F64Bits(bits)), x as usize, "usize of {x}");
        assert_eq!(isize::to_arg(F64Bits(bits)), x as isize, "isize of {x}");
    }
}

#[test]
fn returns_marshal_through_numbers() {
    assert_eq!(true.to_return().0, 1.0f64.to_bits());
    assert_eq!(false.to_return().0, 0.0f64.to_bits());
    assert_eq!(().to_return().0, 0.0f64.to_bits());
    assert_eq!(7u8.to_return().0, 7.0f64.to_bits());
    assert_eq!((-7i32).to_return().0, (-7.0f64).to_bits());
    assert_eq!(65535u16.to_return().0, 65535.0f64.to_bits());
    let ok: Result<u8, ()> = Ok(3);
    assert_eq!(ok.to_return().0, 3.0f64.to_bits());
}

#[test]
fn bool_reads_any_nonzero_number_as_true() {
    assert!(!bool::to_arg(F64Bits(0.0f64.to_bits())));
    assert!(!bool::to_arg(F64Bits((-0.0f64).to_bits())));
    assert!(bool::to_arg(F64Bits(1.0f64.to_bits())));
    assert!(bool::to_arg(F64Bits((-2.5f64).to_bits())));
    assert!(bool::to_arg(F64Bits(f64::NAN.to_bits())));
}

#[test]
fn text_marshals_through_bytes() {
    let t = String::from("hello").to_return();
    assert_eq!(t.0, b"hello".to_vec());
    let back = String::to_arg(CText(b"hello".to_vec()));
    assert_eq!(back, "hello");
    let raw = Vec::<u8>::to_arg(CText(vec![1, 2, 3]));
    assert_eq!(raw, vec![1, 2, 3]);
}

#[test]
fn aborted_calls_return_the_default_for_their_shape() {
    let n: F64Bits = finish_call(CallOutcome::Aborted);
    assert_eq!(n.0, 0.0f64.to_bits());
    let t: CText = finish_call(CallOutcome::Aborted);
    assert_eq!(t.0, Vec::<u8>::new());
    let done: F64Bits = finish_call(CallOutcome::Completed(F64Bits(42)));
    assert_eq!(done.0, 42);
    assert_eq!(<F64Bits as GmDefault>::default().0, 0);
    assert_eq!(<CText as GmDefault>::default().0.len(), 0);
}

#[test]
fn scratch_buffer_is_overwritten_each_call() {
    let mut buf = ReturnBuffer::new();
    return_with_buffer(&mut buf, &CText(b"first".to_vec()));
    assert_eq!(buf.as_bytes(), b"first\0");
    return_with_buffer(&mut buf, &CText(b"no".to_vec()));
    assert_eq!(buf.as_bytes(), b"no\0");
}

#[test]
fn buffer_views_expose_exactly_the_described_range() {
    let data: Vec<u8> = (0u8..20).collect();
    let buf = GmBuffer::new(data);
    assert_eq!(buf.as_slice(5), &[0, 1, 2, 3, 4]);
    assert_eq!(buf.size(), 20);
    // a region whose first eight little-endian bytes say "12 bytes in all"
    // exposes exactly the four bytes after the prefix
    let mut sized: Vec<u8> = 12u64.to_le_bytes().to_vec();
    sized.extend_from_slice(&[9, 8, 7, 6]);
    sized.extend_from_slice(&[0xde, 0xad]); // trailing slack stays hidden
    let sbuf = GmBuffer::new(sized);
    assert_eq!(sbuf.as_slice_sized(), &[9, 8, 7, 6]);
}

#[test]
fn buffer_writes_land_in_place() {
    let mut buf = GmBuffer::new(vec![0u8; 4]);
    buf.write_at(2, 0xab);
    assert_eq!(buf.as_slice(4), &[0, 0, 0xab, 0]);
}

#[test]
fn generator_refuses_ineligible_signatures_in_order() {
    let base = |public: bool, asyncness: bool| FnSig {
        is_public: public,
        is_async: asyncness,
        is_variadic: false,
        has_receiver: false,
        generics: Vec::new(),
        name: String::from("hello"),
        arg_count: 3,
    };
    assert_eq!(gm_func(&base(false, false), &None), Err(GmFuncError::NotPublic));
    assert_eq!(gm_func(&base(true, true), &None), Err(GmFuncError::IsAsync));
    let mut generic = base(true, false);
    generic.generics = vec![GenericKind::Lifetime, GenericKind::Type];
    assert_eq!(gm_func(&generic, &None), Err(GmFuncError::NonLifetimeGeneric));
    let mut variadic = base(true, false);
    variadic.is_variadic = true;
    assert_eq!(gm_func(&variadic, &None), Err(GmFuncError::Variadic));
    let mut method = base(true, false);
    method.has_receiver = true;
    assert_eq!(gm_func(&method, &None), Err(GmFuncError::HasReceiver));
}

#[test]
fn generator_plans_the_exported_signature() {
    let mut sig = FnSig {
        is_public: true,
        is_async: false,
        is_variadic: false,
        has_receiver: false,
        generics: vec![GenericKind::Lifetime],
        name: String::from("connect"),
        arg_count: 2,
    };
    let plan: ExportPlan = gm_func(&sig, &None).unwrap();
    assert_eq!(plan.symbol, "connect");
    assert_eq!(plan.arg_names, vec![String::from("arg_0"), String::from("arg_1")]);
    sig.arg_count = 0;
    let named = gm_func(&sig, &Some(String::from("ext_connect"))).unwrap();
    assert_eq!(named.symbol, "ext_connect");
    assert_eq!(named.arg_names.len(), 0);
}

#[test]
fn decimal_text_matches_native_formatting() {
    for i in [0i64, 7, -7, 10, 99, -100, i64::MAX, i64::MIN] {
        assert_eq!(i64_to_string(i), i.to_string());
    }
    for n in [0u64, 9, 10, 12345, u64::MAX] {
        assert_eq!(u64_to_string(n), n.to_string());
    }
}

#[test]
fn decimal_parse_matches_native_parsing() {
    for t in ["0", "7", "+7", "007", "-8", "-0", "9223372036854775807",
        "-9223372036854775808", "9223372036854775808", "", "+", "-", "x", "1x",
        "18446744073709551615", "18446744073709551616"] {
        let chars: Vec<char> = t.chars().collect();
        assert_eq!(parse_i64(&chars), t.parse::<i64>().ok(), "i64 {t:?}");
        assert_eq!(parse_u64(&chars), t.parse::<u64>().ok(), "u64 {t:?}");
    }
}

#[test]
fn float_text_grammar_matches_native_parsing() {
    for t in ["0", "2.5", "-2.5", "+.5", "5.", ".", "", "1e5", "1E+5", "1e", "e5",
        "inf", "-inf", "INFINITY", "nan", "NaN", "nAn", "infinit", "1.2.3",
        "1.e5", "--5", "0x10", " 1", "1 "] {
        let chars: Vec<char> = t.chars().collect();
        assert_eq!(
            is_float_text(&chars),
            t.parse::<f64>().is_ok(),
            "float text {t:?}"
        );
    }
}
