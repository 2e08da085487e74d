//! The buffer accessor: a typed window over a memory region the host owns.
//!
//! The host hands a region over as a text pointer; reading the raw memory
//! behind that pointer is the embedding's business, and the library models
//! the region by its bytes. A view is either of caller-asserted length or
//! of a length self-described by the region's first eight little-endian
//! bytes, in which case the view excludes those eight length bytes.

use vstd::prelude::*;

use crate::func::{BoundaryView, CText, GmArg};
use crate::parsing::{le_value, lemma_le_value_bound, lemma_pow256_concrete, take_le};

verus! {

/// A host-owned memory region, by its bytes.
pub struct GmBuffer {
    data: Vec<u8>,
}

impl View for GmBuffer {
    type V = Seq<u8>;

    closed spec fn view(&self) -> Seq<u8> {
        self.data@
    }
}

impl GmBuffer {
    /// Wraps a region's bytes.
    pub fn new(data: Vec<u8>) -> (r: GmBuffer)
        ensures
            r@ == data@,
    {
        GmBuffer { data }
    }

    /// The region's size.
    pub fn size(&self) -> (r: usize)
        ensures
            r == self@.len(),
    {
        self.data.len()
    }

    /// A read view of the first `len` bytes; the region must be at least
    /// that long, which is the caller's obligation.
    pub fn as_slice(&self, len: usize) -> (r: &[u8])
        requires
            len <= self@.len(),
        ensures
            r@ == self@.take(len as int),
    {
        let r = vstd::slice::slice_subrange(self.data.as_slice(), 0, len);
        proof {
            assert(r@ =~= self@.take(len as int));
        }
        r
    }

    /// Writes one byte of the region.
    pub fn write_at(&mut self, i: usize, b: u8)
        requires
            i < old(self)@.len(),
        ensures
            final(self)@ == old(self)@.update(i as int, b),
    {
        self.data[i] = b;
    }

    /// The length the region's first eight little-endian bytes describe:
    /// the whole region's size, those eight bytes included.
    pub open spec fn spec_sized_len(&self) -> int {
        le_value(self@, 8)
    }

    /// A read view of a self-describing region: the first eight bytes hold
    /// the region's total length, and the view is everything after them.
    /// That the region really is that long is the caller's obligation; no
    /// independent bound is available to check it against.
    pub fn as_slice_sized(&self) -> (r: &[u8])
        requires
            self@.len() >= 8,
            8 <= self.spec_sized_len() <= self@.len(),
        ensures
            r@ == self@.subrange(8, self.spec_sized_len()),
    {
        let n = self.data.len();
        let header = self.data.as_slice();
        let got = take_le(header, 8);
        proof {
            lemma_pow256_concrete();
            lemma_le_value_bound(self@, 8);
        }
        let (_, len64) = got.unwrap();
        let len = len64 as usize;
        let r = vstd::slice::slice_subrange(self.data.as_slice(), 8, len);
        proof {
            assert(r@ =~= self@.subrange(8, self.spec_sized_len()));
        }
        r
    }
}

/// A buffer argument arrives as a text pointer naming the region; the
/// embedding reads the region's bytes behind that pointer.
impl GmArg for GmBuffer {
    type Arg = CText;

    open spec fn arg_ok(a: BoundaryView) -> bool {
        a is Text
    }

    open spec fn arg_spec(a: BoundaryView) -> Seq<u8> {
        a->Text_0
    }

    fn to_arg(arg: CText) -> (r: GmBuffer) {
        GmBuffer { data: arg.0 }
    }
}

} // verus!
