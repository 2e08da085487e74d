//! Binary field parsers: little-endian fixed-width numbers, a one-byte
//! boolean and a null-terminated string, in a complete-input and a
//! streaming-input flavor.
//!
//! The two flavors decode identically; they differ only in how running out
//! of input is reported. The complete flavor treats short input as
//! malformed, the streaming flavor reports that more input is needed, so a
//! caller can buffer more data and retry.

use vstd::prelude::*;

pub mod complete;
pub mod streaming;

verus! {

/// How a field parser can fail.
#[derive(Debug, PartialEq, Eq, Structural, Clone, Copy)]
pub enum ParseError {
    /// The input ended before the field was complete; only the streaming
    /// flavor reports this.
    Incomplete,
    /// The input cannot hold the field.
    Malformed,
}

/// The value of the first `n` bytes of `s` read as a little-endian number.
pub open spec fn le_value(s: Seq<u8>, n: nat) -> int
    decreases n,
{
    if n == 0 {
        0
    } else {
        s[0] + 256 * le_value(s.drop_first(), (n - 1) as nat)
    }
}

/// Little-endian values are bounded by the width read.
pub proof fn lemma_le_value_bound(s: Seq<u8>, n: nat)
    requires
        n <= s.len(),
    ensures
        0 <= le_value(s, n) < pow256(n),
    decreases n,
{
    if n > 0 {
        lemma_le_value_bound(s.drop_first(), (n - 1) as nat);
    }
}

/// Powers of 256, for bounding field values.
pub open spec fn pow256(n: nat) -> int
    decreases n,
{
    if n == 0 {
        1
    } else {
        256 * pow256((n - 1) as nat)
    }
}

/// Reads the first `width` bytes of `input` as a little-endian number, with
/// what remains; nothing when the input is shorter than the field.
pub fn take_le(input: &[u8], width: usize) -> (r: Option<(&[u8], u64)>)
    requires
        width <= 8,
    ensures
        r is Some <==> input@.len() >= width,
        r matches Some((rest, v)) ==> rest@ == input@.skip(width as int) && v == le_value(
            input@,
            width as nat,
        ),
{
    if input.len() < width {
        return None;
    }
    let ghost whole = input@;
    let mut acc: u64 = 0;
    let mut j: usize = width;
    proof {
        lemma_pow256_le(width as nat);
        assert(le_value(whole.skip(width as int), 0) == 0);
    }
    while j > 0
        invariant
            j <= width <= 8,
            width <= whole.len(),
            whole == input@,
            acc == le_value(whole.skip(j as int), (width - j) as nat),
            acc < pow256((width - j) as nat),
        decreases j,
    {
        let b = input[j - 1];
        proof {
            lemma_pow256_le((width - j + 1) as nat);
            lemma_pow256_pos((width - j) as nat);
            assert(whole.skip(j - 1).drop_first() =~= whole.skip(j as int));
            assert(whole.skip(j - 1)[0] == whole[j - 1]);
            assert(le_value(whole.skip(j - 1), (width - j + 1) as nat) == whole[j - 1] + 256
                * le_value(whole.skip(j as int), (width - j) as nat));
            assert(pow256((width - j + 1) as nat) == 256 * pow256((width - j) as nat));
        }
        acc = acc * 256 + (b as u64);
        j = j - 1;
    }
    proof {
        assert(whole.skip(0) =~= whole);
    }
    let rest = vstd::slice::slice_subrange(input, width, input.len());
    proof {
        assert(rest@ =~= input@.skip(width as int));
    }
    Some((rest, acc))
}

/// The powers of 256 a field can need, written out.
pub proof fn lemma_pow256_concrete()
    ensures
        pow256(0) == 1,
        pow256(1) == 0x100,
        pow256(2) == 0x10000,
        pow256(3) == 0x1000000,
        pow256(4) == 0x100000000,
        pow256(5) == 0x10000000000,
        pow256(6) == 0x1000000000000,
        pow256(7) == 0x100000000000000,
        pow256(8) == 0x10000000000000000,
{
    assert(pow256(0) == 1);
    assert(pow256(1) == 0x100);
    assert(pow256(2) == 0x10000);
    assert(pow256(3) == 0x1000000);
    assert(pow256(4) == 0x100000000);
    assert(pow256(5) == 0x10000000000);
    assert(pow256(6) == 0x1000000000000);
    assert(pow256(7) == 0x100000000000000);
    assert(pow256(8) == 0x10000000000000000);
}

/// `pow256` stays within a 64-bit word for widths up to eight.
pub proof fn lemma_pow256_le(n: nat)
    requires
        n <= 8,
    ensures
        pow256(n) <= 0x10000000000000000,
{
    lemma_pow256_concrete();
    if n == 0 {
    } else if n == 1 {
    } else if n == 2 {
    } else if n == 3 {
    } else if n == 4 {
    } else if n == 5 {
    } else if n == 6 {
    } else if n == 7 {
    } else {
    }
}

pub proof fn lemma_pow256_pos(n: nat)
    ensures
        pow256(n) >= 1,
    decreases n,
{
    if n > 0 {
        lemma_pow256_pos((n - 1) as nat);
    }
}

/// The first `n` bytes of `s` read as a little-endian two's-complement
/// signed number.
pub open spec fn le_signed(s: Seq<u8>, n: nat) -> int {
    let u = le_value(s, n);
    if u < pow256(n) / 2 {
        u
    } else {
        u - pow256(n)
    }
}

/// The position of the first null byte of `input`, if any: the parsed
/// string is everything through that terminator.
pub open spec fn nul_pos(s: Seq<u8>) -> int
    decreases s.len(),
{
    if s.len() == 0 {
        0
    } else if s[0] == 0 {
        0
    } else {
        1 + nul_pos(s.drop_first())
    }
}

/// `nul_pos` is determined by those properties.
pub proof fn lemma_nul_pos_unique(s: Seq<u8>, k: int)
    requires
        0 <= k <= s.len(),
        k < s.len() ==> s[k] == 0,
        forall|i: int| 0 <= i < k ==> s[i] != 0,
    ensures
        nul_pos(s) == k,
    decreases s.len(),
{
    if s.len() > 0 && s[0] != 0 {
        assert(forall|i: int|
            0 <= i < s.len() - 1 ==> #[trigger] s.drop_first()[i] == s[i + 1]);
        lemma_nul_pos_unique(s.drop_first(), k - 1);
    }
}

/// Splits `input` at its first null byte: the string with its terminator,
/// and what follows; nothing when no terminator is present.
pub fn take_string(input: &[u8]) -> (r: Option<(&[u8], &[u8])>)
    ensures
        r is Some <==> nul_pos(input@) < input@.len(),
        r matches Some((s, rest)) ==> s@ == input@.take(nul_pos(input@) + 1) && rest@
            == input@.skip(nul_pos(input@) + 1),
{
    let ghost whole = input@;
    let mut i: usize = 0;
    while i < input.len() && input[i] != 0
        invariant
            i <= whole.len(),
            whole == input@,
            forall|j: int| 0 <= j < i ==> whole[j] != 0,
        decreases whole.len() - i,
    {
        i = i + 1;
    }
    if i == input.len() {
        proof {
            lemma_nul_pos_unique(whole, whole.len() as int);
        }
        return None;
    }
    proof {
        lemma_nul_pos_unique(whole, i as int);
    }
    let s = vstd::slice::slice_subrange(input, 0, i + 1);
    let rest = vstd::slice::slice_subrange(input, i + 1, input.len());
    proof {
        assert(s@ =~= whole.take(nul_pos(whole) + 1));
        assert(rest@ =~= whole.skip(nul_pos(whole) + 1));
    }
    Some((s, rest))
}

} // verus!
