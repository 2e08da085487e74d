//! The marshaling contract: every value crossing the boundary is either a
//! 64-bit floating-point number or a pointer to a null-terminated byte
//! string. `GmReturn` says how a native value becomes one of those two
//! shapes, `GmArg` how one of them becomes a native value, and `GmDefault`
//! which value of each shape stands in when a call aborts.
//!
//! The number shape is carried as its IEEE 754 bit pattern and the text
//! shape as its bytes without the terminator, so every conversion is stated
//! over plain integers and sequences.

use vstd::prelude::*;

use crate::fbits::{
    f64_bits_of_int,
    f64_bits_to_i64,
    f64_bits_to_u64,
    f64_cast_sat,
    lemma_sat_narrow,
    to_f64_bits,
};
use crate::encoding::from_utf8_lossy;
use vstd::utf8::{decode_utf8, encode_utf8, valid_utf8};

verus! {

/// The two shapes the host's calling convention knows.
pub enum BoundaryView {
    /// A 64-bit floating-point number, as its bit pattern.
    Number(u64),
    /// A null-terminated byte string, as its bytes without the terminator.
    Text(Seq<u8>),
}

/// A boundary number: the bit pattern of a 64-bit IEEE 754 value; zero bits
/// are the number 0.0.
pub struct F64Bits(pub u64);

impl View for F64Bits {
    type V = BoundaryView;

    open spec fn view(&self) -> BoundaryView {
        BoundaryView::Number(self.0)
    }
}

/// Boundary text: the bytes of a null-terminated string, terminator
/// excluded. The bytes must not contain a null byte, or the host would see
/// a shorter string.
pub struct CText(pub Vec<u8>);

impl View for CText {
    type V = BoundaryView;

    open spec fn view(&self) -> BoundaryView {
        BoundaryView::Text(self.0@)
    }
}

/// The shapes a value may be returned to the host as.
pub trait GmPossibleReturn: View<V = BoundaryView> {

}

/// The shapes a value may be received from the host as.
pub trait GmPossibleArg: View<V = BoundaryView> {

}

impl GmPossibleReturn for F64Bits {

}

impl GmPossibleReturn for CText {

}

impl GmPossibleArg for F64Bits {

}

impl GmPossibleArg for CText {

}

/// A native type that can be returned to the host: it names its boundary
/// shape, the inputs on which the conversion is defined, and the exact
/// boundary value each native value becomes. A conversion that is not
/// defined for an input (text with an embedded terminator, a failed
/// outcome) must abort the call instead; see `finish_call`.
pub trait GmReturn where Self: Sized {
    type Return: GmPossibleReturn;

    /// The inputs the conversion accepts.
    spec fn ret_ok(&self) -> bool;

    /// The boundary value this native value becomes.
    spec fn ret_view(&self) -> BoundaryView;

    /// Converts the native value to its boundary shape.
    fn to_return(self) -> (r: Self::Return)
        requires
            self.ret_ok(),
        ensures
            r@ == self.ret_view(),
    ;
}

/// A native type that can be received from the host: it names its boundary
/// shape, the boundary values it accepts, and the exact native value each
/// of them becomes.
pub trait GmArg: View + Sized {
    type Arg: GmPossibleArg;

    /// The boundary values the conversion accepts; others abort the call.
    spec fn arg_ok(a: BoundaryView) -> bool;

    /// The native value a boundary value becomes.
    spec fn arg_spec(a: BoundaryView) -> Self::V;

    /// Converts the boundary value to the native type.
    fn to_arg(arg: Self::Arg) -> (r: Self)
        requires
            Self::arg_ok(arg@),
        ensures
            r@ == Self::arg_spec(arg@),
    ;
}

impl GmReturn for F64Bits {
    type Return = F64Bits;

    open spec fn ret_ok(&self) -> bool {
        true
    }

    open spec fn ret_view(&self) -> BoundaryView {
        BoundaryView::Number(self.0)
    }

    fn to_return(self) -> (r: F64Bits) {
        self
    }
}

impl GmReturn for bool {
    type Return = F64Bits;

    open spec fn ret_ok(&self) -> bool {
        true
    }

    /// `true` is the number 1.0 and `false` the number 0.0.
    open spec fn ret_view(&self) -> BoundaryView {
        BoundaryView::Number(
            if *self {
                0x3FF0000000000000u64
            } else {
                0u64
            },
        )
    }

    fn to_return(self) -> (r: F64Bits) {
        if self {
            F64Bits(0x3FF0000000000000)
        } else {
            F64Bits(0)
        }
    }
}

impl GmReturn for () {
    type Return = F64Bits;

    open spec fn ret_ok(&self) -> bool {
        true
    }

    /// A function without a result returns the number 0.0.
    open spec fn ret_view(&self) -> BoundaryView {
        BoundaryView::Number(0u64)
    }

    fn to_return(self) -> (r: F64Bits) {
        F64Bits(0)
    }
}

impl GmReturn for u8 {
    type Return = F64Bits;

    open spec fn ret_ok(&self) -> bool {
        true
    }

    open spec fn ret_view(&self) -> BoundaryView {
        BoundaryView::Number(f64_bits_of_int(*self as int))
    }

    fn to_return(self) -> (r: F64Bits) {
        F64Bits(to_f64_bits(self as i64))
    }
}

impl GmReturn for i8 {
    type Return = F64Bits;

    open spec fn ret_ok(&self) -> bool {
        true
    }

    open spec fn ret_view(&self) -> BoundaryView {
        BoundaryView::Number(f64_bits_of_int(*self as int))
    }

    fn to_return(self) -> (r: F64Bits) {
        F64Bits(to_f64_bits(self as i64))
    }
}

impl GmReturn for u16 {
    type Return = F64Bits;

    open spec fn ret_ok(&self) -> bool {
        true
    }

    open spec fn ret_view(&self) -> BoundaryView {
        BoundaryView::Number(f64_bits_of_int(*self as int))
    }

    fn to_return(self) -> (r: F64Bits) {
        F64Bits(to_f64_bits(self as i64))
    }
}

impl GmReturn for i16 {
    type Return = F64Bits;

    open spec fn ret_ok(&self) -> bool {
        true
    }

    open spec fn ret_view(&self) -> BoundaryView {
        BoundaryView::Number(f64_bits_of_int(*self as int))
    }

    fn to_return(self) -> (r: F64Bits) {
        F64Bits(to_f64_bits(self as i64))
    }
}

impl GmReturn for u32 {
    type Return = F64Bits;

    open spec fn ret_ok(&self) -> bool {
        true
    }

    open spec fn ret_view(&self) -> BoundaryView {
        BoundaryView::Number(f64_bits_of_int(*self as int))
    }

    fn to_return(self) -> (r: F64Bits) {
        F64Bits(to_f64_bits(self as i64))
    }
}

impl GmReturn for i32 {
    type Return = F64Bits;

    open spec fn ret_ok(&self) -> bool {
        true
    }

    open spec fn ret_view(&self) -> BoundaryView {
        BoundaryView::Number(f64_bits_of_int(*self as int))
    }

    fn to_return(self) -> (r: F64Bits) {
        F64Bits(to_f64_bits(self as i64))
    }
}

impl GmReturn for String {
    type Return = CText;

    /// Text with an embedded terminator cannot be returned.
    open spec fn ret_ok(&self) -> bool {
        forall|i: int| 0 <= i < self@.len() ==> (#[trigger] self@[i]) as u32 != 0
    }

    open spec fn ret_view(&self) -> BoundaryView {
        BoundaryView::Text(encode_utf8(self@))
    }

    fn to_return(self) -> (r: CText) {
        let bytes = copy_bytes(self.as_str().as_bytes());
        CText(bytes)
    }
}

impl GmReturn for CText {
    type Return = CText;

    open spec fn ret_ok(&self) -> bool {
        true
    }

    open spec fn ret_view(&self) -> BoundaryView {
        BoundaryView::Text(self.0@)
    }

    fn to_return(self) -> (r: CText) {
        self
    }
}

/// A fallible outcome marshals only its success payload; a failure must
/// abort the call, so it is outside the accepted inputs.
impl<T: GmReturn, E> GmReturn for Result<T, E> {
    type Return = T::Return;

    open spec fn ret_ok(&self) -> bool {
        match self {
            Ok(t) => t.ret_ok(),
            Err(_) => false,
        }
    }

    open spec fn ret_view(&self) -> BoundaryView {
        match self {
            Ok(t) => t.ret_view(),
            Err(_) => BoundaryView::Number(0u64),
        }
    }

    fn to_return(self) -> (r: T::Return) {
        match self {
            Ok(t) => t.to_return(),
            Err(_) => vstd::pervasive::unreached(),
        }
    }
}

/// Copies a byte slice into an owned vector.
fn copy_bytes(src: &[u8]) -> (r: Vec<u8>)
    ensures
        r@ == src@,
{
    let mut out: Vec<u8> = Vec::new();
    let mut i: usize = 0;
    while i < src.len()
        invariant
            i <= src@.len(),
            out@ == src@.take(i as int),
        decreases src@.len() - i,
    {
        out.push(src[i]);
        proof {
            assert(src@.take(i + 1) =~= src@.take(i as int).push(src@[i as int]));
        }
        i = i + 1;
    }
    proof {
        assert(src@.take(src@.len() as int) =~= src@);
    }
    out
}

impl GmArg for F64Bits {
    type Arg = F64Bits;

    open spec fn arg_ok(a: BoundaryView) -> bool {
        a is Number
    }

    open spec fn arg_spec(a: BoundaryView) -> BoundaryView {
        a
    }

    fn to_arg(arg: F64Bits) -> (r: F64Bits) {
        arg
    }
}

impl GmArg for bool {
    type Arg = F64Bits;

    open spec fn arg_ok(a: BoundaryView) -> bool {
        a is Number
    }

    /// Any number other than positive or negative 0.0 reads as `true`.
    open spec fn arg_spec(a: BoundaryView) -> bool {
        a->Number_0 != 0u64 && a->Number_0 != 0x8000000000000000u64
    }

    fn to_arg(arg: F64Bits) -> (r: bool) {
        arg.0 != 0 && arg.0 != 0x8000000000000000
    }
}

impl GmArg for u64 {
    type Arg = F64Bits;

    open spec fn arg_ok(a: BoundaryView) -> bool {
        a is Number
    }

    open spec fn arg_spec(a: BoundaryView) -> u64 {
        f64_cast_sat(a->Number_0, 0, u64::MAX as int) as u64
    }

    fn to_arg(arg: F64Bits) -> (r: u64) {
        f64_bits_to_u64(arg.0)
    }
}

impl GmArg for i64 {
    type Arg = F64Bits;

    open spec fn arg_ok(a: BoundaryView) -> bool {
        a is Number
    }

    open spec fn arg_spec(a: BoundaryView) -> i64 {
        f64_cast_sat(a->Number_0, i64::MIN as int, i64::MAX as int) as i64
    }

    fn to_arg(arg: F64Bits) -> (r: i64) {
        f64_bits_to_i64(arg.0)
    }
}

impl GmArg for u8 {
    type Arg = F64Bits;

    open spec fn arg_ok(a: BoundaryView) -> bool {
        a is Number
    }

    open spec fn arg_spec(a: BoundaryView) -> u8 {
        f64_cast_sat(a->Number_0, 0, u8::MAX as int) as u8
    }

    fn to_arg(arg: F64Bits) -> (r: u8) {
        proof {
            lemma_sat_narrow(arg.0, 0, u64::MAX as int, 0, u8::MAX as int);
        }
        let x = f64_bits_to_u64(arg.0);
        if x > 255 {
            255
        } else {
            x as u8
        }
    }
}

impl GmArg for u16 {
    type Arg = F64Bits;

    open spec fn arg_ok(a: BoundaryView) -> bool {
        a is Number
    }

    open spec fn arg_spec(a: BoundaryView) -> u16 {
        f64_cast_sat(a->Number_0, 0, u16::MAX as int) as u16
    }

    fn to_arg(arg: F64Bits) -> (r: u16) {
        proof {
            lemma_sat_narrow(arg.0, 0, u64::MAX as int, 0, u16::MAX as int);
        }
        let x = f64_bits_to_u64(arg.0);
        if x > 65535 {
            65535
        } else {
            x as u16
        }
    }
}

impl GmArg for u32 {
    type Arg = F64Bits;

    open spec fn arg_ok(a: BoundaryView) -> bool {
        a is Number
    }

    open spec fn arg_spec(a: BoundaryView) -> u32 {
        f64_cast_sat(a->Number_0, 0, u32::MAX as int) as u32
    }

    fn to_arg(arg: F64Bits) -> (r: u32) {
        proof {
            lemma_sat_narrow(arg.0, 0, u64::MAX as int, 0, u32::MAX as int);
        }
        let x = f64_bits_to_u64(arg.0);
        if x > 0xFFFFFFFF {
            0xFFFFFFFF
        } else {
            x as u32
        }
    }
}

impl GmArg for usize {
    type Arg = F64Bits;

    open spec fn arg_ok(a: BoundaryView) -> bool {
        a is Number
    }

    open spec fn arg_spec(a: BoundaryView) -> usize {
        f64_cast_sat(a->Number_0, 0, usize::MAX as int) as usize
    }

    fn to_arg(arg: F64Bits) -> (r: usize) {
        proof {
            lemma_sat_narrow(arg.0, 0, u64::MAX as int, 0, usize::MAX as int);
        }
        let x = f64_bits_to_u64(arg.0);
        if x > usize::MAX as u64 {
            usize::MAX
        } else {
            x as usize
        }
    }
}

impl GmArg for i8 {
    type Arg = F64Bits;

    open spec fn arg_ok(a: BoundaryView) -> bool {
        a is Number
    }

    open spec fn arg_spec(a: BoundaryView) -> i8 {
        f64_cast_sat(a->Number_0, i8::MIN as int, i8::MAX as int) as i8
    }

    fn to_arg(arg: F64Bits) -> (r: i8) {
        proof {
            lemma_sat_narrow(arg.0, i64::MIN as int, i64::MAX as int, i8::MIN as int, i8::MAX as int);
        }
        let x = f64_bits_to_i64(arg.0);
        if x > 127 {
            127
        } else if x < -128 {
            -128
        } else {
            x as i8
        }
    }
}

impl GmArg for i16 {
    type Arg = F64Bits;

    open spec fn arg_ok(a: BoundaryView) -> bool {
        a is Number
    }

    open spec fn arg_spec(a: BoundaryView) -> i16 {
        f64_cast_sat(a->Number_0, i16::MIN as int, i16::MAX as int) as i16
    }

    fn to_arg(arg: F64Bits) -> (r: i16) {
        proof {
            lemma_sat_narrow(
                arg.0,
                i64::MIN as int,
                i64::MAX as int,
                i16::MIN as int,
                i16::MAX as int,
            );
        }
        let x = f64_bits_to_i64(arg.0);
        if x > 32767 {
            32767
        } else if x < -32768 {
            -32768
        } else {
            x as i16
        }
    }
}

impl GmArg for i32 {
    type Arg = F64Bits;

    open spec fn arg_ok(a: BoundaryView) -> bool {
        a is Number
    }

    open spec fn arg_spec(a: BoundaryView) -> i32 {
        f64_cast_sat(a->Number_0, i32::MIN as int, i32::MAX as int) as i32
    }

    fn to_arg(arg: F64Bits) -> (r: i32) {
        proof {
            lemma_sat_narrow(
                arg.0,
                i64::MIN as int,
                i64::MAX as int,
                i32::MIN as int,
                i32::MAX as int,
            );
        }
        let x = f64_bits_to_i64(arg.0);
        if x > 0x7FFFFFFF {
            0x7FFFFFFF
        } else if x < -0x80000000 {
            -0x80000000
        } else {
            x as i32
        }
    }
}

impl GmArg for isize {
    type Arg = F64Bits;

    open spec fn arg_ok(a: BoundaryView) -> bool {
        a is Number
    }

    open spec fn arg_spec(a: BoundaryView) -> isize {
        f64_cast_sat(a->Number_0, isize::MIN as int, isize::MAX as int) as isize
    }

    fn to_arg(arg: F64Bits) -> (r: isize) {
        proof {
            lemma_sat_narrow(
                arg.0,
                i64::MIN as int,
                i64::MAX as int,
                isize::MIN as int,
                isize::MAX as int,
            );
        }
        let x = f64_bits_to_i64(arg.0);
        if x > isize::MAX as i64 {
            isize::MAX
        } else if x < isize::MIN as i64 {
            isize::MIN
        } else {
            x as isize
        }
    }
}

impl GmArg for CText {
    type Arg = CText;

    open spec fn arg_ok(a: BoundaryView) -> bool {
        a is Text
    }

    open spec fn arg_spec(a: BoundaryView) -> BoundaryView {
        a
    }

    fn to_arg(arg: CText) -> (r: CText) {
        arg
    }
}

impl GmArg for Vec<u8> {
    type Arg = CText;

    open spec fn arg_ok(a: BoundaryView) -> bool {
        a is Text
    }

    open spec fn arg_spec(a: BoundaryView) -> Seq<u8> {
        a->Text_0
    }

    fn to_arg(arg: CText) -> (r: Vec<u8>) {
        arg.0
    }
}

impl GmArg for String {
    type Arg = CText;

    /// Text that is not valid UTF-8 cannot become a native string; the call
    /// aborts instead.
    open spec fn arg_ok(a: BoundaryView) -> bool {
        a is Text && valid_utf8(a->Text_0)
    }

    open spec fn arg_spec(a: BoundaryView) -> Seq<char> {
        decode_utf8(a->Text_0)
    }

    fn to_arg(arg: CText) -> (r: String) {
        from_utf8_lossy(arg.0.as_slice())
    }
}

/// The value returned in place of a result when a wrapped call aborts.
pub trait GmDefault: View + Sized {
    /// The default for this boundary shape.
    spec fn default_view() -> Self::V;

    /// Produces the default value.
    fn default() -> (r: Self)
        ensures
            r@ == Self::default_view(),
    ;
}

impl GmDefault for F64Bits {
    /// An aborted call that would return a number returns 0.0.
    open spec fn default_view() -> BoundaryView {
        BoundaryView::Number(0u64)
    }

    fn default() -> (r: F64Bits) {
        F64Bits(0)
    }
}

impl GmDefault for CText {
    /// An aborted call that would return text returns the empty string.
    open spec fn default_view() -> BoundaryView {
        BoundaryView::Text(Seq::<u8>::empty())
    }

    fn default() -> (r: CText) {
        let v: Vec<u8> = Vec::new();
        proof {
            assert(v@ =~= Seq::<u8>::empty());
        }
        CText(v)
    }
}

/// How a wrapped native call ended: with a result, or abruptly.
pub enum CallOutcome<R> {
    Completed(R),
    Aborted,
}

/// The tail of every exported entry point: a completed call returns its
/// result, and an aborted call returns the default for the declared return
/// shape, so no abrupt termination ever crosses the boundary.
pub fn finish_call<R: GmDefault>(outcome: CallOutcome<R>) -> (r: R)
    ensures
        outcome matches CallOutcome::Completed(v) ==> r == v,
        outcome is Aborted ==> r@ == R::default_view(),
{
    match outcome {
        CallOutcome::Completed(v) => v,
        CallOutcome::Aborted => GmDefault::default(),
    }
}

/// The scratch buffer backing every text pointer handed to the host. It is
/// overwritten by the next return-producing call, so the host must consume
/// the pointer before calling in again.
pub struct ReturnBuffer {
    data: Vec<u8>,
}

impl View for ReturnBuffer {
    type V = Seq<u8>;

    closed spec fn view(&self) -> Seq<u8> {
        self.data@
    }
}

impl ReturnBuffer {
    /// An empty scratch buffer.
    pub fn new() -> (r: ReturnBuffer)
        ensures
            r@ == Seq::<u8>::empty(),
    {
        let v: Vec<u8> = Vec::new();
        proof {
            assert(v@ =~= Seq::<u8>::empty());
        }
        ReturnBuffer { data: v }
    }

    /// The buffer's current contents, terminator included.
    pub fn as_bytes(&self) -> (r: &[u8])
        ensures
            r@ == self@,
    {
        self.data.as_slice()
    }
}

/// Clears the scratch buffer and fills it with the text and its terminator;
/// what it held before is gone, which is the buffer's contract: the pointer
/// a call returns is valid only until the next call overwrites it.
pub fn return_with_buffer(buf: &mut ReturnBuffer, text: &CText)
    requires
        forall|i: int| 0 <= i < text.0@.len() ==> text.0@[i] != 0,
    ensures
        final(buf)@ == text.0@.push(0u8),
{
    buf.data.clear();
    let mut i: usize = 0;
    while i < text.0.len()
        invariant
            i <= text.0@.len(),
            buf.data@ == text.0@.take(i as int),
        decreases text.0@.len() - i,
    {
        buf.data.push(text.0[i]);
        proof {
            assert(text.0@.take(i + 1) =~= text.0@.take(i as int).push(text.0@[i as int]));
        }
        i = i + 1;
    }
    buf.data.push(0);
    proof {
        assert(text.0@.take(text.0@.len() as int) =~= text.0@);
    }
}

} // verus!
