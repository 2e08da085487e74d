//! Standard base64 text, and the trusted boundary to the base64 crate and
//! to the standard library's lossy UTF-8 decoder.
//!
//! The value-interchange codec escapes free-form fields with standard
//! base64 so that no field can contain the record delimiter or the
//! terminator byte. `spec_b64` states the RFC 4648 encoding (standard
//! alphabet, with padding) directly, so everything the codec's proofs need
//! about encoded fields — their characters, their length, that decoding
//! inverts encoding — is proved here rather than assumed; the two wrappers
//! below only tie the base64 crate's functions to that statement.

use vstd::prelude::*;

verus! {

/// The standard base64 alphabet: letter `v` of RFC 4648's table.
pub open spec fn b64_digit(v: int) -> char {
    if v < 26 {
        ((65 + v) as u8) as char
    } else if v < 52 {
        ((97 + (v - 26)) as u8) as char
    } else if v < 62 {
        ((48 + (v - 52)) as u8) as char
    } else if v == 62 {
        '+'
    } else {
        '/'
    }
}

/// Standard base64 text of a byte sequence (RFC 4648, with padding):
/// each group of three bytes becomes four alphabet characters; a final
/// group of one or two bytes is padded with `=`.
pub open spec fn spec_b64(bytes: Seq<u8>) -> Seq<char>
    decreases bytes.len(),
{
    if bytes.len() == 0 {
        Seq::<char>::empty()
    } else if bytes.len() == 1 {
        let n = bytes[0] as int * 65536;
        seq![b64_digit(n / 262144), b64_digit((n / 4096) % 64), '=', '=']
    } else if bytes.len() == 2 {
        let n = bytes[0] as int * 65536 + bytes[1] as int * 256;
        seq![b64_digit(n / 262144), b64_digit((n / 4096) % 64), b64_digit((n / 64) % 64), '=']
    } else {
        let n = bytes[0] as int * 65536 + bytes[1] as int * 256 + bytes[2] as int;
        seq![
            b64_digit(n / 262144),
            b64_digit((n / 4096) % 64),
            b64_digit((n / 64) % 64),
            b64_digit(n % 64),
        ] + spec_b64(bytes.skip(3))
    }
}

/// The characters that standard base64 text is made of: the 64-letter
/// alphabet and the padding character.
pub open spec fn is_b64_char(c: char) -> bool {
    ('A' <= c && c <= 'Z') || ('a' <= c && c <= 'z') || ('0' <= c && c <= '9') || c == '+' || c
        == '/' || c == '='
}

/// Every character of base64 text is from the alphabet or padding; none is
/// a record delimiter, a list delimiter or a terminator.
pub proof fn lemma_b64_chars(bytes: Seq<u8>)
    ensures
        forall|i: int|
            0 <= i < spec_b64(bytes).len() ==> is_b64_char(#[trigger] spec_b64(bytes)[i]),
        forall|i: int|
            0 <= i < spec_b64(bytes).len() ==> #[trigger] spec_b64(bytes)[i] != ':'
                && spec_b64(bytes)[i] != ';' && spec_b64(bytes)[i] as u32 != 0,
    decreases bytes.len(),
{
    assert forall|v: int| 0 <= v < 64 implies is_b64_char(#[trigger] b64_digit(v))
        && b64_digit(v) != ':' && b64_digit(v) != ';' && b64_digit(v) as u32 != 0 by {
        if v < 26 {
            assert('A' <= b64_digit(v) && b64_digit(v) <= 'Z');
        } else if v < 52 {
            assert('a' <= b64_digit(v) && b64_digit(v) <= 'z');
        } else if v < 62 {
            assert('0' <= b64_digit(v) && b64_digit(v) <= '9');
        }
    }
    let s = spec_b64(bytes);
    if bytes.len() == 0 {
    } else if bytes.len() == 1 {
        let n = bytes[0] as int * 65536;
        assert(0 <= n / 262144 < 64);
        assert(0 <= (n / 4096) % 64 < 64);
        assert(s.len() == 4);
        assert(s[0] == b64_digit(n / 262144));
        assert(s[1] == b64_digit((n / 4096) % 64));
        assert(s[2] == '=' && s[3] == '=');
    } else if bytes.len() == 2 {
        let n = bytes[0] as int * 65536 + bytes[1] as int * 256;
        assert(0 <= n / 262144 < 64);
        assert(0 <= (n / 4096) % 64 < 64);
        assert(0 <= (n / 64) % 64 < 64);
        assert(s.len() == 4);
        assert(s[0] == b64_digit(n / 262144));
        assert(s[1] == b64_digit((n / 4096) % 64));
        assert(s[2] == b64_digit((n / 64) % 64));
        assert(s[3] == '=');
    } else {
        let n = bytes[0] as int * 65536 + bytes[1] as int * 256 + bytes[2] as int;
        lemma_b64_chars(bytes.skip(3));
        assert(0 <= n / 262144 < 64);
        assert(0 <= (n / 4096) % 64 < 64);
        assert(0 <= (n / 64) % 64 < 64);
        assert(0 <= n % 64 < 64);
        let head = seq![
            b64_digit(n / 262144),
            b64_digit((n / 4096) % 64),
            b64_digit((n / 64) % 64),
            b64_digit(n % 64),
        ];
        assert(s == head + spec_b64(bytes.skip(3)));
        assert(head[0] == b64_digit(n / 262144));
        assert(head[1] == b64_digit((n / 4096) % 64));
        assert(head[2] == b64_digit((n / 64) % 64));
        assert(head[3] == b64_digit(n % 64));
        assert forall|i: int| 0 <= i < s.len() implies is_b64_char(#[trigger] s[i]) && s[i]
            != ':' && s[i] != ';' && s[i] as u32 != 0 by {
            if i < 4 {
                assert(s[i] == head[i]);
            } else {
                assert(s[i] == spec_b64(bytes.skip(3))[i - 4]);
            }
        }
    }
}

/// Base64 text is never shorter than the bytes it encodes.
pub proof fn lemma_b64_geq(bytes: Seq<u8>)
    ensures
        spec_b64(bytes).len() >= bytes.len(),
    decreases bytes.len(),
{
    if bytes.len() >= 3 {
        lemma_b64_geq(bytes.skip(3));
    }
}

/// Whether `t` is the base64 text of some byte sequence.
pub open spec fn is_b64_text(t: Seq<char>) -> bool {
    exists|b: Seq<u8>| t == spec_b64(b)
}

/// The bytes that base64 text stands for.
pub open spec fn b64_bytes_of(t: Seq<char>) -> Seq<u8> {
    choose|b: Seq<u8>| t == spec_b64(b)
}

/// Relies on `base64::engine::Engine::encode` with the `STANDARD` engine:
/// it emits RFC 4648 base64 with padding over the standard alphabet, which
/// is exactly `spec_b64`.
#[verifier::external_body]
pub fn b64_encode(bytes: &[u8]) -> (r: String)
    ensures
        r@ == spec_b64(bytes@),
{
    base64::Engine::encode(&base64::engine::general_purpose::STANDARD, bytes)
}

/// Relies on `base64::engine::Engine::decode` with the `STANDARD` engine:
/// it accepts exactly canonical RFC 4648 text (canonical padding required,
/// trailing bits refused) and inverts the encoder on it.
#[verifier::external_body]
pub fn b64_decode(text: &Vec<char>) -> (r: Option<Vec<u8>>)
    ensures
        forall|b: Seq<u8>| text@ == spec_b64(b) ==> r is Some && r.unwrap()@ == b,
        r matches Some(v) ==> text@ == spec_b64(v@),
{
    let s: String = text.iter().collect();
    match base64::Engine::decode(&base64::engine::general_purpose::STANDARD, s.as_str()) {
        Ok(v) => Some(v),
        Err(_) => None,
    }
}

/// The characters that the lossy UTF-8 decoder yields for a byte sequence.
pub uninterp spec fn utf8_lossy(bytes: Seq<u8>) -> Seq<char>;

/// Relies on `String::from_utf8_lossy`: valid UTF-8 input decodes to exactly
/// its characters, invalid sequences are replaced; every decoded character
/// consumes at least one input byte.
#[verifier::external_body]
pub fn from_utf8_lossy(bytes: &[u8]) -> (r: String)
    ensures
        r@ == utf8_lossy(bytes@),
        r@.len() <= bytes@.len(),
        vstd::utf8::valid_utf8(bytes@) ==> r@ == vstd::utf8::decode_utf8(bytes@),
{
    String::from_utf8_lossy(bytes).into_owned()
}

/// Relies on `Iterator::collect` to assemble a string out of its exact
/// sequence of characters.
#[verifier::external_body]
pub fn string_from_chars(text: &Vec<char>) -> (r: String)
    ensures
        r@ == text@,
{
    text.iter().collect()
}

} // verus!
