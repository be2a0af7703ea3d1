//! The encoder: queues segments in memory, then serializes them to a byte
//! sink as one frame.

use vstd::prelude::*;

verus! {

use vstd::string::StringSliceAdditionalSpecFns;
use crate::{Segment, seg_views};
use crate::wire::{
    ByteOrder, IoError, frame_bytes, total_size, body_bytes, encodable, encode_varint_into,
    encode_u32_into, push_bytes, lemma_total_size_split, lemma_total_size_push,
    lemma_body_bytes_push,
};

/// A writer that queues segments and serializes them over a stream using
/// variable-length encoding. Length fields are little-endian unless another
/// byte order is configured.
pub struct VarWriter {
    data: Vec<Segment>,
    order: ByteOrder,
}

impl VarWriter {
    /// The queued segments' bytes, in order.
    pub closed spec fn segs(&self) -> Seq<Seq<u8>> {
        seg_views(self.data@)
    }

    /// The configured byte order of the length fields.
    pub closed spec fn byte_order(&self) -> ByteOrder {
        self.order
    }

    /// Creates a writer with little-endian length fields.
    pub fn new() -> (r: VarWriter)
        ensures
            r.segs() == Seq::<Seq<u8>>::empty(),
            r.byte_order() == ByteOrder::Little,
    {
        let r = VarWriter { data: Vec::new(), order: ByteOrder::Little };
        proof {
            assert(r.segs() =~= Seq::<Seq<u8>>::empty());
        }
        r
    }

    /// Creates a writer with the given byte order for its length fields.
    pub fn with_order(order: ByteOrder) -> (r: VarWriter)
        ensures
            r.segs() == Seq::<Seq<u8>>::empty(),
            r.byte_order() == order,
    {
        let r = VarWriter { data: Vec::new(), order };
        proof {
            assert(r.segs() =~= Seq::<Seq<u8>>::empty());
        }
        r
    }

    /// Adds a segment to the end of the queue.
    pub fn add(&mut self, segment: Segment)
        ensures
            final(self).segs() == old(self).segs().push(segment@),
            final(self).byte_order() == old(self).byte_order(),
    {
        let ghost s: Seq<u8> = segment@;
        self.data.push(segment);
        proof {
            assert(self.segs() =~= old(self).segs().push(s));
        }
    }

    /// Adds a string to the queue, as its UTF-8 bytes.
    pub fn add_string(&mut self, string: &str)
        ensures
            final(self).segs() == old(self).segs().push(string.spec_bytes()),
            final(self).byte_order() == old(self).byte_order(),
    {
        self.add(Segment::from_text(string));
    }

    /// Adds raw bytes to the queue.
    pub fn add_raw(&mut self, raw: &[u8])
        ensures
            final(self).segs() == old(self).segs().push(raw@),
            final(self).byte_order() == old(self).byte_order(),
    {
        self.add(Segment::from_slice(raw));
    }

    /// Removes all segments from the queue without writing.
    pub fn clear(&mut self)
        ensures
            final(self).segs() == Seq::<Seq<u8>>::empty(),
            final(self).byte_order() == old(self).byte_order(),
    {
        self.data.clear();
        proof {
            assert(self.segs() =~= Seq::<Seq<u8>>::empty());
        }
    }

    /// Checks that the queue fits the wire format and this machine: each
    /// segment's length fits the 4-byte field and the frame size fits
    /// `usize`.
    pub fn is_encodable(&self) -> (r: bool)
        ensures
            r == encodable(self.segs()),
    {
        let mut total: usize = 0;
        let mut i: usize = 0;
        while i < self.data.len()
            invariant
                i <= self.data@.len(),
                total == total_size(self.segs().take(i as int)),
                forall|j: int| 0 <= j < i ==> #[trigger] self.segs()[j].len() < 0x1_0000_0000,
            decreases self.data@.len() - i,
        {
            let len = self.data[i].len();
            if len > (u32::MAX as usize) {
                proof {
                    assert(self.segs()[i as int].len() >= 0x1_0000_0000);
                }
                return false;
            }
            if len > usize::MAX - 4 || total > usize::MAX - 4 - len {
                proof {
                    lemma_total_size_push(self.segs().take(i as int), self.segs()[i as int]);
                    assert(self.segs().take(i + 1) =~= self.segs().take(i as int).push(
                        self.segs()[i as int],
                    ));
                    lemma_total_size_split(self.segs(), i + 1);
                    assert(total_size(self.segs()) > usize::MAX);
                }
                return false;
            }
            proof {
                lemma_total_size_push(self.segs().take(i as int), self.segs()[i as int]);
                assert(self.segs().take(i + 1) =~= self.segs().take(i as int).push(
                    self.segs()[i as int],
                ));
            }
            total = total + 4 + len;
            i = i + 1;
        }
        proof {
            assert(self.segs().take(self.data@.len() as int) =~= self.segs());
        }
        true
    }

    /// Serializes the queued segments as one frame: the varint frame size,
    /// then each segment's length field and bytes, in insertion order. The
    /// queue is left untouched.
    pub fn encode(&self) -> (r: Vec<u8>)
        requires
            encodable(self.segs()),
        ensures
            r@ == frame_bytes(self.segs(), self.byte_order()),
    {
        let ghost all: Seq<Seq<u8>> = self.segs();
        let mut total: usize = 0;
        let mut i: usize = 0;
        while i < self.data.len()
            invariant
                encodable(all),
                all == self.segs(),
                i <= self.data@.len(),
                total == total_size(all.take(i as int)),
            decreases self.data@.len() - i,
        {
            let len = self.data[i].len();
            proof {
                lemma_total_size_push(all.take(i as int), all[i as int]);
                assert(all.take(i + 1) =~= all.take(i as int).push(all[i as int]));
                lemma_total_size_split(all, i + 1);
            }
            total = total + 4 + len;
            i = i + 1;
        }
        proof {
            assert(all.take(self.data@.len() as int) =~= all);
        }
        let mut out: Vec<u8> = Vec::new();
        encode_varint_into(&mut out, total);
        let ghost prefix: Seq<u8> = out@;
        let mut k: usize = 0;
        while k < self.data.len()
            invariant
                encodable(all),
                all == self.segs(),
                k <= self.data@.len(),
                out@ == prefix + body_bytes(all.take(k as int), self.byte_order()),
            decreases self.data@.len() - k,
        {
            let len = self.data[k].len();
            encode_u32_into(&mut out, self.order, len as u32);
            push_bytes(&mut out, self.data[k].as_bytes());
            proof {
                lemma_body_bytes_push(all.take(k as int), all[k as int], self.byte_order());
                assert(all.take(k + 1) =~= all.take(k as int).push(all[k as int]));
                assert(out@ =~= prefix + body_bytes(all.take(k + 1), self.byte_order()));
            }
            k = k + 1;
        }
        proof {
            assert(all.take(self.data@.len() as int) =~= all);
            assert(out@ =~= frame_bytes(all, self.byte_order()));
        }
        out
    }

    /// Encodes the queue and writes the frame to `stream`; on success the
    /// queue is cleared. Writing to an in-memory sink cannot fail, so this
    /// always succeeds.
    pub fn send(&mut self, stream: &mut Vec<u8>) -> (r: Result<(), IoError>)
        requires
            encodable(old(self).segs()),
        ensures
            r is Ok,
            final(stream)@ == old(stream)@ + frame_bytes(
                old(self).segs(),
                old(self).byte_order(),
            ),
            final(self).segs() == Seq::<Seq<u8>>::empty(),
            final(self).byte_order() == old(self).byte_order(),
    {
        match self.send_without_clearing(stream) {
            Ok(u) => {
                self.clear();
                Ok(u)
            },
            Err(e) => Err(e),
        }
    }

    /// Encodes the queue and writes the frame to `stream`; the queue is
    /// retained, so the same frame can be sent again.
    pub fn send_without_clearing(&mut self, stream: &mut Vec<u8>) -> (r: Result<(), IoError>)
        requires
            encodable(old(self).segs()),
        ensures
            r is Ok,
            final(stream)@ == old(stream)@ + frame_bytes(
                old(self).segs(),
                old(self).byte_order(),
            ),
            *final(self) == *old(self),
    {
        let mut frame = self.encode();
        stream.append(&mut frame);
        Ok(())
    }
}

impl Default for VarWriter {
    fn default() -> (r: Self)
        ensures
            r.segs() == Seq::<Seq<u8>>::empty(),
            r.byte_order() == ByteOrder::Little,
    {
        VarWriter::new()
    }
}

} // verus!
