//! The value-interchange codec, exercised on concrete records.

use gm_utils::codec::{decode_value_list, decode_vari, encode_value_list, encode_vari};
use gm_utils::value::Value;

fn int_value(i: i64) -> Value {
    Value::Int(i)
}

#[test]
fn null_record() {
    assert_eq!(encode_vari(&Value::Null), "!");
    assert_eq!(decode_vari("!"), Some(Value::Null));
}

#[test]
fn integer_round_trip() {
    for i in [0i64, 5, -1, 42, i64::MAX, i64::MIN] {
        let rec = encode_vari(&int_value(i));
        assert_eq!(decode_vari(&rec), Some(int_value(i)));
    }
    assert_eq!(encode_vari(&int_value(5)), "0:5");
    assert_eq!(encode_vari(&int_value(-17)), "0:-17");
    assert_eq!(
        encode_vari(&int_value(i64::MIN)),
        "0:-9223372036854775808"
    );
}

#[test]
fn integer_parse_matches_native() {
    assert_eq!(decode_vari("0:007"), Some(int_value(7)));
    assert_eq!(decode_vari("0:+7"), Some(int_value(7)));
    assert_eq!(decode_vari("0:9223372036854775807"), Some(int_value(i64::MAX)));
    assert_eq!(decode_vari("0:-9223372036854775808"), Some(int_value(i64::MIN)));
    // out of range, empty and non-numeric fields are malformed
    assert_eq!(decode_vari("0:9223372036854775808"), None);
    assert_eq!(decode_vari("0:"), None);
    assert_eq!(decode_vari("0"), None);
    assert_eq!(decode_vari("0:x1"), None);
    // a record carries extra fields without harm, as the splitter ignores
    // what follows the fields a tag needs
    assert_eq!(decode_vari("0:5:junk"), Some(int_value(5)));
}

#[test]
fn float_round_trip() {
    for t in ["2.5", "-0.125", "1e10", "inf", "-inf", "NaN", "5", ".5", "5.", "1.e5"] {
        let v = Value::Float(String::from(t));
        let rec = encode_vari(&v);
        assert_eq!(rec, format!("1:{t}"));
        assert_eq!(decode_vari(&rec), Some(v));
        // every carried text is one the native parser accepts
        assert!(t.parse::<f64>().is_ok());
    }
    assert_eq!(decode_vari("1:fish"), None);
    assert_eq!(decode_vari("1:"), None);
    assert!("fish".parse::<f64>().is_err());
}

#[test]
fn bool_round_trip() {
    assert_eq!(encode_vari(&Value::Bool(true)), "2:1");
    assert_eq!(encode_vari(&Value::Bool(false)), "2:0");
    assert_eq!(decode_vari("2:1"), Some(Value::Bool(true)));
    assert_eq!(decode_vari("2:0"), Some(Value::Bool(false)));
    // any nonzero number reads as true, as the native decoder behaves
    assert_eq!(decode_vari("2:5"), Some(Value::Bool(true)));
    assert_eq!(decode_vari("2:-1"), Some(Value::Bool(true)));
    assert_eq!(decode_vari("2:"), None);
}

#[test]
fn string_round_trip() {
    let v = Value::String(String::from("hi there"));
    let rec = encode_vari(&v);
    assert_eq!(rec, "3:aGkgdGhlcmU=");
    assert_eq!(decode_vari(&rec), Some(v));
    let empty = Value::String(String::new());
    let rec2 = encode_vari(&empty);
    assert_eq!(rec2, "3:");
    assert_eq!(decode_vari(&rec2), Some(empty));
    // non-ASCII text survives
    let uni = Value::String(String::from("h\u{e9}llo \u{4e16}\u{754c}"));
    let rec3 = encode_vari(&uni);
    assert_eq!(decode_vari(&rec3), Some(uni));
}

#[test]
fn lossy_string_edge() {
    // a crafted record whose field holds invalid UTF-8 decodes to the
    // lossy replacement of those bytes, not to the original bytes
    let rec = "3:Yf9i"; // base64 of [0x61, 0xff, 0x62]
    let decoded = decode_vari(rec);
    assert_eq!(
        decoded,
        Some(Value::String(String::from("a\u{fffd}b")))
    );
}

#[test]
fn buffer_round_trip() {
    let v = Value::Buffer(vec![1u8, 2, 250]);
    let rec = encode_vari(&v);
    assert_eq!(rec, "4:AQL6");
    assert_eq!(decode_vari(&rec), Some(v));
    assert_eq!(decode_vari("4:!!!"), None);
    // the strict decoder refuses non-canonical padding
    assert_eq!(decode_vari("4:AQL"), None);
}

#[test]
fn array_round_trip() {
    let v = Value::Array(vec![Value::Bool(true), Value::Null]);
    let rec = encode_vari(&v);
    assert_eq!(rec, "5:2:Mjox:IQ==");
    assert_eq!(decode_vari(&rec), Some(v));
    let empty = Value::Array(vec![]);
    let rec2 = encode_vari(&empty);
    assert_eq!(rec2, "5:0");
    assert_eq!(decode_vari(&rec2), Some(empty));
    // a count that promises more children than follow is malformed
    assert_eq!(decode_vari("5:2:Mjox"), None);
    assert_eq!(decode_vari("5:x"), None);
}

#[test]
fn nested_struct_scenario() {
    let v = Value::Struct(vec![
        (String::from("a"), Value::Int(5)),
        (
            String::from("b"),
            Value::Array(vec![Value::Bool(true), Value::Null]),
        ),
    ]);
    let rec = encode_vari(&v);
    assert_eq!(rec, "6:2:YQ==:MDo1:Yg==:NToyOk1qb3g6SVE9PQ==");
    assert_eq!(decode_vari(&rec), Some(v));
}

#[test]
fn struct_duplicate_keys_take_the_last() {
    let dup = "6:2:YQ==:MDo1:YQ==:IQ==";
    let decoded = decode_vari(dup);
    assert_eq!(
        decoded,
        Some(Value::Struct(vec![(String::from("a"), Value::Null)]))
    );
}

#[test]
fn unknown_tag_reads_as_null() {
    // an unrecognized or missing leading tag is a deliberate leniency
    assert_eq!(decode_vari("7:whatever"), Some(Value::Null));
    assert_eq!(decode_vari(""), Some(Value::Null));
    assert_eq!(decode_vari("hello"), Some(Value::Null));
    assert_eq!(decode_vari("!:junk"), Some(Value::Null));
    assert_eq!(decode_vari("00:5"), Some(Value::Null));
}

#[test]
fn deep_nesting_round_trip() {
    let mut v = Value::Int(7);
    for _ in 0..6 {
        v = Value::Array(vec![v, Value::Bool(false)]);
    }
    let rec = encode_vari(&v);
    assert_eq!(decode_vari(&rec), Some(v));
}

#[test]
fn value_list_round_trip() {
    let vals = vec![int_value(5), Value::Null, Value::Bool(true)];
    let s = encode_value_list(&vals);
    assert_eq!(s, "3;0:5;!;2:1");
    assert_eq!(decode_value_list(&s), Some(vals));
    assert_eq!(decode_value_list("0"), Some(vec![]));
    // a promised record that is missing is malformed
    assert_eq!(decode_value_list("2;0:5"), None);
    assert_eq!(decode_value_list("x;!"), None);
}
