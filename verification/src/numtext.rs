//! Decimal text for integers, and validation of floating-point decimal text.
//!
//! The value-interchange codec writes integer fields with the native decimal
//! formatter and reads them back with the native decimal parser; both are
//! implemented and specified here. Floating-point payloads are carried as
//! their decimal text, so the codec only needs to decide whether a piece of
//! text is acceptable to the native floating-point parser; `is_float_text`
//! decides exactly that grammar.

use vstd::prelude::*;

verus! {

/// The decimal digit character for `d`, which must be in `0 .. 10`.
pub open spec fn digit_char(d: int) -> char {
    if d == 0 {
        '0'
    } else if d == 1 {
        '1'
    } else if d == 2 {
        '2'
    } else if d == 3 {
        '3'
    } else if d == 4 {
        '4'
    } else if d == 5 {
        '5'
    } else if d == 6 {
        '6'
    } else if d == 7 {
        '7'
    } else if d == 8 {
        '8'
    } else {
        '9'
    }
}

/// Decimal text of a natural number, without sign and without leading
/// zeros (the number zero is the single digit `0`).
pub open spec fn nat_text(n: nat) -> Seq<char>
    decreases n,
{
    if n < 10 {
        seq![digit_char(n as int)]
    } else {
        nat_text(n / 10).push(digit_char((n % 10) as int))
    }
}

/// Decimal text of an integer: a minus sign on negative numbers, then the
/// decimal digits of the magnitude.
pub open spec fn int_text(i: int) -> Seq<char> {
    if i < 0 {
        seq!['-'] + nat_text((-i) as nat)
    } else {
        nat_text(i as nat)
    }
}

/// The decimal digit string for a digit value; used to assemble formatted
/// numbers out of string literals.
fn digit_str(d: u64) -> (r: &'static str)
    requires
        d < 10,
    ensures
        r@ == seq![digit_char(d as int)],
{
    proof {
        reveal_strlit("0");
        reveal_strlit("1");
        reveal_strlit("2");
        reveal_strlit("3");
        reveal_strlit("4");
        reveal_strlit("5");
        reveal_strlit("6");
        reveal_strlit("7");
        reveal_strlit("8");
        reveal_strlit("9");
    }
    if d == 0 {
        "0"
    } else if d == 1 {
        "1"
    } else if d == 2 {
        "2"
    } else if d == 3 {
        "3"
    } else if d == 4 {
        "4"
    } else if d == 5 {
        "5"
    } else if d == 6 {
        "6"
    } else if d == 7 {
        "7"
    } else if d == 8 {
        "8"
    } else {
        "9"
    }
}

/// Formats `n` in decimal, matching the native formatter's output.
pub fn u64_to_string(n: u64) -> (r: String)
    ensures
        r@ == nat_text(n as nat),
    decreases n,
{
    if n < 10 {
        digit_str(n).to_owned()
    } else {
        let mut s = u64_to_string(n / 10);
        s.append(digit_str(n % 10));
        s
    }
}

/// Whether `c` is a decimal digit.
pub open spec fn is_digit(c: char) -> bool {
    48 <= c as u32 && c as u32 <= 57
}

/// The value of a decimal digit character.
pub open spec fn digit_val(c: char) -> int {
    c as u32 - 48
}

/// Whether every character of `s` is a decimal digit.
pub open spec fn all_digits(s: Seq<char>) -> bool {
    forall|i: int| 0 <= i < s.len() ==> is_digit(#[trigger] s[i])
}

/// Each digit character denotes its digit.
pub proof fn lemma_digit_char_val(d: int)
    requires
        0 <= d < 10,
    ensures
        is_digit(digit_char(d)),
        digit_val(digit_char(d)) == d,
{
    assert('0' as u32 == 48);
    assert('1' as u32 == 49);
    assert('2' as u32 == 50);
    assert('3' as u32 == 51);
    assert('4' as u32 == 52);
    assert('5' as u32 == 53);
    assert('6' as u32 == 54);
    assert('7' as u32 == 55);
    assert('8' as u32 == 56);
    assert('9' as u32 == 57);
}

/// The number denoted by a string of decimal digits, most significant first.
pub open spec fn digits_val(s: Seq<char>) -> int
    decreases s.len(),
{
    if s.len() == 0 {
        0
    } else {
        digits_val(s.drop_last()) * 10 + digit_val(s.last())
    }
}

pub proof fn lemma_digits_val_nonneg(s: Seq<char>)
    requires
        all_digits(s),
    ensures
        digits_val(s) >= 0,
    decreases s.len(),
{
    if s.len() > 0 {
        assert(all_digits(s.drop_last())) by {
            assert(forall|i: int|
                0 <= i < s.len() - 1 ==> #[trigger] s.drop_last()[i] == s[i]);
        }
        lemma_digits_val_nonneg(s.drop_last());
    }
}

/// Appending further digits never shrinks the denoted number.
pub proof fn lemma_digits_val_prefix(s: Seq<char>, n: int)
    requires
        all_digits(s),
        0 <= n <= s.len(),
    ensures
        digits_val(s.take(n)) <= digits_val(s),
    decreases s.len() - n,
{
    if n < s.len() {
        let t = s.take(n + 1);
        assert(all_digits(t)) by {
            assert(forall|i: int| 0 <= i < n + 1 ==> #[trigger] t[i] == s[i]);
        }
        assert(t.drop_last() =~= s.take(n));
        lemma_digits_val_nonneg(s.take(n));
        assert(digits_val(s.take(n)) <= digits_val(t));
        lemma_digits_val_prefix(s, n + 1);
    } else {
        assert(s.take(n) =~= s);
    }
}

/// The decimal text of a number denotes that number, and is made of digits.
pub proof fn lemma_nat_text_val(n: nat)
    ensures
        all_digits(nat_text(n)),
        digits_val(nat_text(n)) == n,
        nat_text(n).len() >= 1,
    decreases n,
{
    if n < 10 {
        lemma_digit_char_val(n as int);
        assert(nat_text(n) =~= seq![digit_char(n as int)]);
        assert(nat_text(n).drop_last() =~= Seq::<char>::empty());
        assert(digits_val(Seq::<char>::empty()) == 0);
    } else {
        lemma_digit_char_val((n % 10) as int);
        lemma_nat_text_val(n / 10);
        let t = nat_text(n);
        assert(t =~= nat_text(n / 10).push(digit_char((n % 10) as int)));
        assert(t.drop_last() =~= nat_text(n / 10));
        assert(forall|i: int|
            0 <= i < t.len() - 1 ==> #[trigger] t[i] == nat_text(n / 10)[i]);
    }
}

/// The digits of unsigned decimal text, the optional plus sign stripped.
pub open spec fn uint_body(t: Seq<char>) -> Seq<char> {
    if t.len() > 0 && t[0] == '+' {
        t.drop_first()
    } else {
        t
    }
}

/// Whether the native unsigned 64-bit parser accepts `t`.
pub open spec fn u64_text_ok(t: Seq<char>) -> bool {
    uint_body(t).len() > 0 && all_digits(uint_body(t)) && digits_val(uint_body(t)) <= u64::MAX
}

/// The number denoted by unsigned decimal text.
pub open spec fn u64_text_val(t: Seq<char>) -> int {
    digits_val(uint_body(t))
}

/// The digits of signed decimal text, the sign stripped.
pub open spec fn int_body(t: Seq<char>) -> Seq<char> {
    if t.len() > 0 && (t[0] == '+' || t[0] == '-') {
        t.drop_first()
    } else {
        t
    }
}

/// Whether `t` denotes a negative number.
pub open spec fn int_negative(t: Seq<char>) -> bool {
    t.len() > 0 && t[0] == '-'
}

/// Whether the native signed 64-bit parser accepts `t`.
pub open spec fn i64_text_ok(t: Seq<char>) -> bool {
    int_body(t).len() > 0 && all_digits(int_body(t)) && (if int_negative(t) {
        digits_val(int_body(t)) <= 9223372036854775808
    } else {
        digits_val(int_body(t)) <= i64::MAX
    })
}

/// The number denoted by signed decimal text.
pub open spec fn i64_text_val(t: Seq<char>) -> int {
    if int_negative(t) {
        -digits_val(int_body(t))
    } else {
        digits_val(int_body(t))
    }
}

/// Parses decimal text as the native unsigned parser does: an optional plus
/// sign, then one or more digits, rejected when the number does not fit.
pub fn parse_u64(text: &Vec<char>) -> (r: Option<u64>)
    ensures
        r is Some <==> u64_text_ok(text@),
        r matches Some(v) ==> v == u64_text_val(text@),
{
    let ghost body = if text@.len() > 0 && text@[0] == '+' {
        text@.drop_first()
    } else {
        text@
    };
    let mut i: usize = 0;
    if text.len() > 0 && text[0] == '+' {
        i = 1;
    }
    if i == text.len() {
        return None;
    }
    let start = i;
    let mut acc: u64 = 0;
    while i < text.len()
        invariant
            start <= i <= text@.len(),
            start == (if text@.len() > 0 && text@[0] == '+' { 1int } else { 0int }),
            body == text@.skip(start as int),
            all_digits(body.take(i - start)),
            acc == digits_val(body.take(i - start)),
        decreases text@.len() - i,
    {
        proof {
            assert(text@.skip(0) =~= text@);
            if text@.len() > 0 {
                assert(text@.skip(1) =~= text@.drop_first());
            }
        }
        let c = text[i];
        let u = c as u32;
        if !(48 <= u && u <= 57) {
            assert(!is_digit(body[i - start]));
            return None;
        }
        let d = (u - 48) as u64;
        proof {
            assert(body.take(i - start + 1).drop_last() =~= body.take(i - start));
            lemma_digits_val_nonneg(body.take(i - start));
        }
        if acc > (u64::MAX - d) / 10 {
            proof {
                let t = body.take(i - start + 1);
                assert(t.last() == body[i - start]);
                assert(body[i - start] == c);
                assert(digits_val(t) == acc * 10 + d);
                assert(acc * 10 + d > u64::MAX);
                if all_digits(body) {
                    lemma_digits_val_prefix(body, i - start + 1);
                    assert(digits_val(body) > u64::MAX);
                }
                assert(!(body.len() > 0 && all_digits(body) && digits_val(body)
                    <= u64::MAX));
            }
            return None;
        }
        acc = acc * 10 + d;
        i = i + 1;
    }
    proof {
        assert(body.take(i - start) =~= body);
    }
    Some(acc)
}

/// Parses decimal text as the native signed parser does: an optional sign,
/// then one or more digits, rejected when the number does not fit.
pub fn parse_i64(text: &Vec<char>) -> (r: Option<i64>)
    ensures
        r is Some <==> i64_text_ok(text@),
        r matches Some(v) ==> v == i64_text_val(text@),
{
    let ghost neg_g = text@.len() > 0 && text@[0] == '-';
    let ghost body = if text@.len() > 0 && (text@[0] == '+' || text@[0] == '-') {
        text@.drop_first()
    } else {
        text@
    };
    let mut i: usize = 0;
    let mut neg = false;
    if text.len() > 0 {
        let c0 = text[0];
        if c0 == '-' {
            neg = true;
            i = 1;
        } else if c0 == '+' {
            i = 1;
        }
    }
    if i == text.len() {
        return None;
    }
    let start = i;
    let mut acc: u64 = 0;
    while i < text.len()
        invariant
            start <= i <= text@.len(),
            start == (if text@.len() > 0 && (text@[0] == '+' || text@[0] == '-') {
                1int
            } else {
                0int
            }),
            neg == neg_g,
            body == text@.skip(start as int),
            all_digits(body.take(i - start)),
            acc == digits_val(body.take(i - start)),
        decreases text@.len() - i,
    {
        proof {
            assert(text@.skip(0) =~= text@);
            if text@.len() > 0 {
                assert(text@.skip(1) =~= text@.drop_first());
            }
        }
        let c = text[i];
        let u = c as u32;
        if !(48 <= u && u <= 57) {
            assert(!is_digit(body[i - start]));
            return None;
        }
        let d = (u - 48) as u64;
        proof {
            assert(body.take(i - start + 1).drop_last() =~= body.take(i - start));
            lemma_digits_val_nonneg(body.take(i - start));
        }
        if acc > (u64::MAX - d) / 10 {
            proof {
                let t = body.take(i - start + 1);
                assert(t.last() == body[i - start]);
                assert(body[i - start] == c);
                assert(digits_val(t) == acc * 10 + d);
                assert(acc * 10 + d > u64::MAX);
                if all_digits(body) {
                    lemma_digits_val_prefix(body, i - start + 1);
                    assert(digits_val(body) > u64::MAX);
                }
                assert(!(body.len() > 0 && all_digits(body) && digits_val(body)
                    <= u64::MAX));
            }
            return None;
        }
        acc = acc * 10 + d;
        i = i + 1;
    }
    proof {
        assert(body.take(i - start) =~= body);
    }
    if neg {
        if acc > 9223372036854775808u64 {
            return None;
        }
        if acc == 9223372036854775808u64 {
            Some(i64::MIN)
        } else {
            Some(-(acc as i64))
        }
    } else {
        if acc > i64::MAX as u64 {
            return None;
        }
        Some(acc as i64)
    }
}

/// Formats `i` in decimal, matching the native formatter's output.
pub fn i64_to_string(i: i64) -> (r: String)
    ensures
        r@ == int_text(i as int),
{
    if i >= 0 {
        u64_to_string(i as u64)
    } else {
        let mag: u64 = if i == i64::MIN {
            9223372036854775808u64
        } else {
            (-i) as u64
        };
        proof {
            reveal_strlit("-");
        }
        let mut s = "-".to_owned();
        s.append(u64_to_string(mag).as_str());
        s
    }
}


/// The index of the first occurrence of `c` in `s`, or `s.len()` when there
/// is none.
pub open spec fn find_first(s: Seq<char>, c: char) -> int
    decreases s.len(),
{
    if s.len() == 0 {
        0
    } else if s[0] == c {
        0
    } else {
        1 + find_first(s.drop_first(), c)
    }
}

/// What `find_first` returns: the position of the first occurrence, with no
/// occurrence before it.
pub proof fn lemma_find_first(s: Seq<char>, c: char)
    ensures
        0 <= find_first(s, c) <= s.len(),
        find_first(s, c) < s.len() ==> s[find_first(s, c)] == c,
        forall|i: int| 0 <= i < find_first(s, c) ==> s[i] != c,
    decreases s.len(),
{
    if s.len() > 0 && s[0] != c {
        lemma_find_first(s.drop_first(), c);
        assert forall|i: int| 0 <= i < find_first(s, c) implies s[i] != c by {
            if i > 0 {
                assert(s.drop_first()[i - 1] != c);
                assert(s.drop_first()[i - 1] == s[i]);
            }
        }
    }
}

/// `find_first` is determined by those two properties.
pub proof fn lemma_find_first_unique(s: Seq<char>, c: char, k: int)
    requires
        0 <= k <= s.len(),
        k < s.len() ==> s[k] == c,
        forall|i: int| 0 <= i < k ==> s[i] != c,
    ensures
        find_first(s, c) == k,
    decreases s.len(),
{
    if s.len() > 0 && s[0] != c {
        assert(forall|i: int|
            0 <= i < s.len() - 1 ==> #[trigger] s.drop_first()[i] == s[i + 1]);
        lemma_find_first_unique(s.drop_first(), c, k - 1);
    }
}

/// Whether `c` is `l` or its upper-case form; `l` must be a lower-case
/// letter. The native floating-point parser reads the words `inf`,
/// `infinity` and `nan` without regard to case.
pub open spec fn ci_eq(c: char, l: char) -> bool {
    c == l || c as u32 + 32 == l as u32
}

pub open spec fn is_inf_text(s: Seq<char>) -> bool {
    s.len() == 3 && ci_eq(s[0], 'i') && ci_eq(s[1], 'n') && ci_eq(s[2], 'f')
}

pub open spec fn is_infinity_text(s: Seq<char>) -> bool {
    s.len() == 8 && ci_eq(s[0], 'i') && ci_eq(s[1], 'n') && ci_eq(s[2], 'f') && ci_eq(s[3], 'i')
        && ci_eq(s[4], 'n') && ci_eq(s[5], 'i') && ci_eq(s[6], 't') && ci_eq(s[7], 'y')
}

pub open spec fn is_nan_text(s: Seq<char>) -> bool {
    s.len() == 3 && ci_eq(s[0], 'n') && ci_eq(s[1], 'a') && ci_eq(s[2], 'n')
}

/// The mantissa of a decimal number: digits, with at most one point and at
/// least one digit.
pub open spec fn valid_mantissa(s: Seq<char>) -> bool {
    let d = find_first(s, '.');
    if d == s.len() {
        s.len() > 0 && all_digits(s)
    } else {
        s.len() > 1 && all_digits(s.take(d)) && all_digits(s.skip(d + 1))
    }
}

/// An exponent: an optional sign, then one or more digits.
pub open spec fn valid_exponent(s: Seq<char>) -> bool {
    let b = if s.len() > 0 && (s[0] == '+' || s[0] == '-') {
        s.drop_first()
    } else {
        s
    };
    b.len() > 0 && all_digits(b)
}

/// A decimal number: a mantissa, optionally followed by an exponent marker
/// and an exponent.
pub open spec fn valid_number_text(s: Seq<char>) -> bool {
    let e = if find_first(s, 'e') < find_first(s, 'E') {
        find_first(s, 'e')
    } else {
        find_first(s, 'E')
    };
    if e == s.len() {
        valid_mantissa(s)
    } else {
        valid_mantissa(s.take(e)) && valid_exponent(s.skip(e + 1))
    }
}

/// Text that the native 64-bit floating-point parser accepts: an optional
/// sign, then one of the words `inf`, `infinity` or `nan` in any case, or a
/// decimal number.
pub open spec fn valid_float_text(s: Seq<char>) -> bool {
    let b = if s.len() > 0 && (s[0] == '+' || s[0] == '-') {
        s.drop_first()
    } else {
        s
    };
    is_inf_text(b) || is_infinity_text(b) || is_nan_text(b) || valid_number_text(b)
}

/// Case-insensitive comparison against a lower-case letter.
fn ci_eq_exec(c: char, l: char) -> (r: bool)
    ensures
        r == ci_eq(c, l),
{
    c == l || (c as u32) + 32 == (l as u32)
}

/// Whether every character of `text[from .. to]` is a decimal digit.
fn all_digits_range(text: &Vec<char>, from: usize, to: usize) -> (r: bool)
    requires
        from <= to <= text@.len(),
    ensures
        r == all_digits(text@.subrange(from as int, to as int)),
{
    let ghost part = text@.subrange(from as int, to as int);
    let mut i: usize = from;
    while i < to
        invariant
            from <= i <= to <= text@.len(),
            part == text@.subrange(from as int, to as int),
            forall|j: int| 0 <= j < i - from ==> is_digit(#[trigger] part[j]),
        decreases to - i,
    {
        let c = text[i];
        let u = c as u32;
        if !(48 <= u && u <= 57) {
            assert(!is_digit(part[i - from]));
            return false;
        }
        assert(is_digit(part[i - from]));
        i = i + 1;
    }
    true
}

/// The first position of `c` in `text` at or after `from`, as `find_first`
/// of the corresponding suffix.
fn find_from(text: &Vec<char>, from: usize, c: char) -> (r: usize)
    requires
        from <= text@.len(),
    ensures
        r - from == find_first(text@.skip(from as int), c),
        from <= r <= text@.len(),
{
    let ghost part = text@.skip(from as int);
    let mut i: usize = from;
    while i < text.len()
        invariant
            from <= i <= text@.len(),
            part == text@.skip(from as int),
            forall|j: int| 0 <= j < i - from ==> part[j] != c,
        decreases text@.len() - i,
    {
        if text[i] == c {
            proof {
                lemma_find_first_unique(part, c, i - from);
            }
            return i;
        }
        assert(part[i - from] != c);
        i = i + 1;
    }
    proof {
        lemma_find_first_unique(part, c, text@.len() - from);
    }
    text.len()
}

/// Decides whether `text[from ..]` is a valid mantissa.
fn is_mantissa_range(text: &Vec<char>, from: usize, to: usize) -> (r: bool)
    requires
        from <= to <= text@.len(),
    ensures
        r == valid_mantissa(text@.subrange(from as int, to as int)),
{
    let ghost part = text@.subrange(from as int, to as int);
    let mut dot: usize = from;
    let mut found = false;
    while dot < to && text[dot] != '.'
        invariant
            from <= dot <= to <= text@.len(),
            part == text@.subrange(from as int, to as int),
            forall|j: int| 0 <= j < dot - from ==> part[j] != '.',
        decreases to - dot,
    {
        assert(part[dot - from] != '.');
        dot = dot + 1;
    }
    proof {
        lemma_find_first_unique(part, '.', dot - from);
    }
    if dot == to {
        if from == to {
            return false;
        }
        all_digits_range(text, from, to)
    } else {
        if to - from <= 1 {
            return false;
        }
        let head = all_digits_range(text, from, dot);
        let tail = all_digits_range(text, dot + 1, to);
        proof {
            assert(part.take(dot - from) =~= text@.subrange(from as int, dot as int));
            assert(part.skip(dot - from + 1) =~= text@.subrange(dot + 1, to as int));
        }
        head && tail
    }
}

/// Decides whether `text` is acceptable to the native 64-bit floating-point
/// parser.
pub fn is_float_text(text: &Vec<char>) -> (r: bool)
    ensures
        r == valid_float_text(text@),
{
    let ghost whole = text@;
    let mut start: usize = 0;
    if text.len() > 0 {
        let c0 = text[0];
        if c0 == '+' || c0 == '-' {
            start = 1;
        }
    }
    let ghost b = if whole.len() > 0 && (whole[0] == '+' || whole[0] == '-') {
        whole.drop_first()
    } else {
        whole
    };
    proof {
        assert(whole.skip(0) =~= whole);
        if whole.len() > 0 {
            assert(whole.skip(1) =~= whole.drop_first());
        }
        assert(b == whole.skip(start as int));
    }
    let n = text.len();
    let rem = n - start;
    // the three special words, in any case
    if rem == 3 || rem == 8 {
        let w3 = ci_eq_exec(text[start], 'i') && ci_eq_exec(text[start + 1], 'n')
            && ci_eq_exec(text[start + 2], 'f');
        if rem == 3 {
            if w3 {
                return true;
            }
            if ci_eq_exec(text[start], 'n') && ci_eq_exec(text[start + 1], 'a') && ci_eq_exec(
                text[start + 2],
                'n',
            ) {
                return true;
            }
        } else {
            if w3 && ci_eq_exec(text[start + 3], 'i') && ci_eq_exec(text[start + 4], 'n')
                && ci_eq_exec(text[start + 5], 'i') && ci_eq_exec(text[start + 6], 't')
                && ci_eq_exec(text[start + 7], 'y') {
                return true;
            }
        }
    }
    proof {
        assert(!is_inf_text(b) && !is_infinity_text(b) && !is_nan_text(b));
    }
    // a decimal number, split at the first exponent marker
    let e1 = find_from(text, start, 'e');
    let e2 = find_from(text, start, 'E');
    let e = if e1 < e2 {
        e1
    } else {
        e2
    };
    if e == n {
        let r = is_mantissa_range(text, start, n);
        proof {
            assert(b.take(b.len() as int) =~= b);
            assert(text@.subrange(start as int, n as int) =~= b);
        }
        r
    } else {
        let m = is_mantissa_range(text, start, e);
        proof {
            assert(text@.subrange(start as int, e as int) =~= b.take(e - start));
        }
        if !m {
            return false;
        }
        // exponent: optional sign, then digits
        let mut es: usize = e + 1;
        if es < n {
            let ce = text[es];
            if ce == '+' || ce == '-' {
                es = es + 1;
            }
        }
        if es == n {
            return false;
        }
        let r = all_digits_range(text, es, n);
        proof {
            let expo = b.skip(e - start + 1);
            assert(expo =~= text@.subrange(e + 1, n as int));
            let eb = if expo.len() > 0 && (expo[0] == '+' || expo[0] == '-') {
                expo.drop_first()
            } else {
                expo
            };
            assert(eb =~= text@.subrange(es as int, n as int));
        }
        r
    }
}


/// Formatted integers parse back to themselves.
pub proof fn lemma_int_text_parse(i: i64)
    ensures
        i64_text_ok(int_text(i as int)),
        i64_text_val(int_text(i as int)) == i,
{
    let t = int_text(i as int);
    if i >= 0 {
        lemma_nat_text_val(i as nat);
        assert(is_digit(t[0]));
        assert('+' as u32 == 43 && '-' as u32 == 45);
        assert(t[0] != '+' && t[0] != '-');
        assert(int_body(t) == t);
        assert(!int_negative(t));
    } else {
        let m = (-(i as int)) as nat;
        lemma_nat_text_val(m);
        assert(t == seq!['-'] + nat_text(m));
        assert(t[0] == '-');
        assert(int_negative(t));
        assert(t.drop_first() =~= nat_text(m));
        assert(int_body(t) == nat_text(m));
        assert(m <= 9223372036854775808);
    }
}

/// Formatted naturals parse back to themselves.
pub proof fn lemma_nat_text_parse(n: u64)
    ensures
        u64_text_ok(nat_text(n as nat)),
        u64_text_val(nat_text(n as nat)) == n,
{
    let t = nat_text(n as nat);
    lemma_nat_text_val(n as nat);
    assert(is_digit(t[0]));
    assert('+' as u32 == 43);
    assert(t[0] != '+');
    assert(uint_body(t) == t);
}

/// Formatted integers contain no record delimiter, no list delimiter and no
/// terminator.
pub proof fn lemma_int_text_chars(i: int)
    ensures
        forall|k: int|
            0 <= k < int_text(i).len() ==> #[trigger] int_text(i)[k] != ':' && int_text(i)[k]
                != ';' && int_text(i)[k] as u32 != 0,
{
    let t = int_text(i);
    assert(':' as u32 == 58 && ';' as u32 == 59 && '-' as u32 == 45);
    if i < 0 {
        lemma_nat_text_val((-i) as nat);
        assert forall|k: int|
            0 <= k < t.len() implies #[trigger] t[k] != ':' && t[k] != ';' && t[k] as u32
            != 0 by {
            if k == 0 {
                assert(t[k] == '-');
            } else {
                assert(t[k] == nat_text((-i) as nat)[k - 1]);
                assert(is_digit(t[k]));
            }
        }
    } else {
        lemma_nat_text_val(i as nat);
        assert forall|k: int|
            0 <= k < t.len() implies #[trigger] t[k] != ':' && t[k] != ';' && t[k] as u32
            != 0 by {
            assert(is_digit(t[k]));
        }
    }
}

/// The characters a mantissa can hold: digits and at most one point.
proof fn lemma_mantissa_chars(m: Seq<char>)
    requires
        valid_mantissa(m),
    ensures
        forall|k: int| 0 <= k < m.len() ==> is_digit(#[trigger] m[k]) || m[k] == '.',
{
    let d = find_first(m, '.');
    lemma_find_first(m, '.');
    if d == m.len() {
    } else {
        assert forall|k: int| 0 <= k < m.len() implies is_digit(#[trigger] m[k]) || m[k]
            == '.' by {
            if k < d {
                assert(m.take(d)[k] == m[k]);
                assert(is_digit(m.take(d)[k]));
            } else if k == d {
            } else {
                assert(m.skip(d + 1)[k - d - 1] == m[k]);
                assert(is_digit(m.skip(d + 1)[k - d - 1]));
            }
        }
    }
}

/// Floating-point text contains no record delimiter, no list delimiter and
/// no terminator.
pub proof fn lemma_float_text_chars(t: Seq<char>)
    requires
        valid_float_text(t),
    ensures
        forall|k: int|
            0 <= k < t.len() ==> #[trigger] t[k] != ':' && t[k] != ';' && t[k] as u32 != 0,
{
    let start: int = if t.len() > 0 && (t[0] == '+' || t[0] == '-') {
        1
    } else {
        0
    };
    let b = if start == 1 {
        t.drop_first()
    } else {
        t
    };
    assert(':' as u32 == 58 && ';' as u32 == 59);
    assert forall|k: int|
        0 <= k < b.len() implies #[trigger] b[k] != ':' && b[k] != ';' && b[k] as u32 != 0 by {
        if is_inf_text(b) || is_infinity_text(b) || is_nan_text(b) {
            let c = b[k];
            assert(ci_eq(c, 'i') || ci_eq(c, 'n') || ci_eq(c, 'f') || ci_eq(c, 't') || ci_eq(
                c,
                'y',
            ) || ci_eq(c, 'a'));
            assert(c as u32 != 58 && c as u32 != 59 && c as u32 != 0);
        } else {
            let e = if find_first(b, 'e') < find_first(b, 'E') {
                find_first(b, 'e')
            } else {
                find_first(b, 'E')
            };
            lemma_find_first(b, 'e');
            lemma_find_first(b, 'E');
            if e == b.len() {
                lemma_mantissa_chars(b);
                assert(is_digit(b[k]) || b[k] == '.');
            } else {
                if k < e {
                    lemma_mantissa_chars(b.take(e));
                    assert(b.take(e)[k] == b[k]);
                    assert(is_digit(b[k]) || b[k] == '.');
                } else if k == e {
                    assert(b[k] == 'e' || b[k] == 'E');
                } else {
                    let x = b.skip(e + 1);
                    assert(x[k - e - 1] == b[k]);
                    let xb = if x.len() > 0 && (x[0] == '+' || x[0] == '-') {
                        x.drop_first()
                    } else {
                        x
                    };
                    if k - e - 1 == 0 && (x[0] == '+' || x[0] == '-') {
                    } else {
                        if x.len() > 0 && (x[0] == '+' || x[0] == '-') {
                            assert(xb[k - e - 2] == x[k - e - 1]);
                            assert(is_digit(xb[k - e - 2]));
                        } else {
                            assert(xb[k - e - 1] == x[k - e - 1]);
                            assert(is_digit(xb[k - e - 1]));
                        }
                    }
                }
            }
        }
    }
    assert forall|k: int|
        0 <= k < t.len() implies #[trigger] t[k] != ':' && t[k] != ';' && t[k] as u32 != 0 by {
        if start == 1 && k == 0 {
            assert(t[0] == '+' || t[0] == '-');
        } else {
            assert(t[k] == b[k - start]);
        }
    }
}

} // verus!
