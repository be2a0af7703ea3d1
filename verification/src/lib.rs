//! A minimal message-framing codec: an encoder packs an ordered list of byte
//! segments into a single length-prefixed frame, and a decoder reads such a
//! frame back into the original segments.
//!
//! Wire format: `varint(total_size) [u32(len) bytes]*`, where `total_size`
//! is the sum of `len + 4` over all segments and the `u32` length fields are
//! little-endian by default (big-endian under an explicit configuration
//! switch).

use vstd::prelude::*;

pub mod laws;
pub mod reader;
pub mod wire;
pub mod writer;

verus! {

use vstd::slice::slice_to_vec;
use vstd::string::StrSliceExecFns;
use vstd::string::StringSliceAdditionalSpecFns;
use vstd::utf8::{valid_utf8, decode_utf8};

/// What `String::from_utf8_lossy` returns for a given byte sequence: the
/// bytes decoded as UTF-8, with each invalid sequence replaced by U+FFFD.
/// The replacement policy is too long to restate here, so the result only
/// gets a name; the one exact clause is the valid-UTF-8 case below.
pub uninterp spec fn lossy_utf8(bytes: Seq<u8>) -> Seq<char>;

/// The bytes of each segment in a list, in order.
pub open spec fn seg_views(data: Seq<Segment>) -> Seq<Seq<u8>> {
    data.map(|i: int, s: Segment| s@)
}

/// An owned, opaque byte buffer: the unit of data carried through the codec.
#[derive(Debug, Clone)]
pub struct Segment {
    seg: Vec<u8>,
}

impl View for Segment {
    type V = Seq<u8>;

    closed spec fn view(&self) -> Seq<u8> {
        self.seg@
    }
}

impl Segment {
    /// Creates an empty segment.
    pub fn new() -> (r: Self)
        ensures
            r@ == Seq::<u8>::empty(),
    {
        Segment { seg: Vec::new() }
    }

    /// Takes ownership of raw bytes; arbitrary binary content is allowed.
    pub fn from_bytes(data: Vec<u8>) -> (r: Self)
        ensures
            r@ == data@,
    {
        Segment { seg: data }
    }

    /// Copies a byte slice into a new segment.
    pub fn from_slice(data: &[u8]) -> (r: Self)
        ensures
            r@ == data@,
    {
        Segment { seg: slice_to_vec(data) }
    }

    /// Encodes a string as UTF-8 bytes; always succeeds.
    pub fn from_text(text: &str) -> (r: Self)
        ensures
            r@ == text.spec_bytes(),
    {
        Segment { seg: text.as_bytes_vec() }
    }

    /// Extends this segment with the bytes of `other`, in order.
    pub fn append(&mut self, other: Segment)
        ensures
            final(self)@ == old(self)@ + other@,
    {
        let mut tail = other;
        self.seg.append(&mut tail.seg);
    }

    /// Returns the current byte count.
    pub fn len(&self) -> (r: usize)
        ensures
            r == self@.len(),
    {
        self.seg.len()
    }

    /// Returns a copy of the underlying bytes.
    pub fn to_raw(&self) -> (r: Vec<u8>)
        ensures
            r@ == self@,
    {
        slice_to_vec(self.seg.as_slice())
    }

    /// Borrows the underlying bytes.
    pub fn as_bytes(&self) -> (r: &[u8])
        ensures
            r@ == self@,
    {
        self.seg.as_slice()
    }

    /// Decodes the buffer as UTF-8 text, substituting the replacement
    /// character for invalid sequences; never fails.
    ///
    /// Relies on `String::from_utf8_lossy`: the result depends on the bytes
    /// alone, and valid UTF-8 input decodes without substitution.
    #[verifier::external_body]
    pub fn to_display_string(&self) -> (r: String)
        ensures
            r@ == lossy_utf8(self@),
            valid_utf8(self@) ==> r@ == decode_utf8(self@),
    {
        String::from_utf8_lossy(self.seg.as_slice()).into_owned()
    }

    /// Renders each segment of a list as display text, in order.
    pub fn to_readable(segments: Vec<Segment>) -> (r: Vec<String>)
        ensures
            r@.len() == segments@.len(),
            forall|i: int| 0 <= i < segments@.len() ==> r@[i]@ == lossy_utf8(segments@[i]@),
    {
        let mut out: Vec<String> = Vec::new();
        let mut i: usize = 0;
        while i < segments.len()
            invariant
                i <= segments@.len(),
                out@.len() == i,
                forall|j: int| 0 <= j < i ==> out@[j]@ == lossy_utf8(segments@[j]@),
            decreases segments@.len() - i,
        {
            out.push(segments[i].to_display_string());
            i = i + 1;
        }
        out
    }
}

impl Default for Segment {
    fn default() -> (r: Self)
        ensures
            r@ == Seq::<u8>::empty(),
    {
        Segment::new()
    }
}

} // verus!
