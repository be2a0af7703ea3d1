//! The decoder: reads frames from the front of a byte source and
//! reconstructs the segment sequences the encoder was given.

use vstd::prelude::*;

verus! {

use vstd::slice::{slice_subrange, slice_to_vec};
use crate::{Segment, seg_views};
use crate::wire::{
    ByteOrder, IoError, u32_value, parse_varint, parse_body, parse_frame, parse_value, parse_len,
    sat_sub, parse_extend, lemma_parse_extend_assoc, lemma_parse_varint_bounds,
    lemma_parse_body_bounds,
};

/// A reader bound to one byte source for its lifetime. Each call to
/// `read_data` consumes exactly one frame from the front of the source, so
/// successive calls decode successive frames.
pub struct VarReader<'a> {
    stream: &'a [u8],
    order: ByteOrder,
}

impl<'a> VarReader<'a> {
    /// The bytes not yet consumed.
    pub closed spec fn remaining(&self) -> Seq<u8> {
        self.stream@
    }

    /// The configured byte order of the length fields.
    pub closed spec fn byte_order(&self) -> ByteOrder {
        self.order
    }

    /// Creates a reader over `reader` with little-endian length fields.
    pub fn new(reader: &'a [u8]) -> (r: Self)
        ensures
            r.remaining() == reader@,
            r.byte_order() == ByteOrder::Little,
    {
        VarReader { stream: reader, order: ByteOrder::Little }
    }

    /// Creates a reader with the given byte order for its length fields.
    pub fn with_order(reader: &'a [u8], order: ByteOrder) -> (r: Self)
        ensures
            r.remaining() == reader@,
            r.byte_order() == order,
    {
        VarReader { stream: reader, order }
    }

    /// Reads one byte; fails exactly when the source is exhausted.
    fn read_byte(&mut self) -> (r: Result<u8, IoError>)
        ensures
            final(self).byte_order() == old(self).byte_order(),
            match r {
                Ok(b) => old(self).remaining().len() > 0 && b == old(self).remaining()[0]
                    && final(self).remaining() == old(self).remaining().skip(1),
                Err(_) => old(self).remaining().len() == 0 && final(self).remaining() == old(
                    self,
                ).remaining(),
            },
    {
        if self.stream.len() == 0 {
            return Err(IoError);
        }
        let b = self.stream[0];
        self.stream = slice_subrange(self.stream, 1, self.stream.len());
        Ok(b)
    }

    /// Reads the varint size field from the front of the source. Fails
    /// exactly when the source ends before a terminating byte, or the value
    /// does not fit `usize`; the source is then left where it was.
    pub fn read_varint(&mut self) -> (r: Result<usize, IoError>)
        ensures
            final(self).byte_order() == old(self).byte_order(),
            match r {
                Ok(v) => {
                    &&& parse_varint(old(self).remaining()) is Some
                    &&& v as nat == parse_value(parse_varint(old(self).remaining()))
                    &&& final(self).remaining() == old(self).remaining().skip(
                        parse_len(parse_varint(old(self).remaining())) as int,
                    )
                },
                Err(_) => {
                    &&& (parse_varint(old(self).remaining()) is None || parse_value(
                        parse_varint(old(self).remaining()),
                    ) > usize::MAX)
                    &&& final(self).remaining() == old(self).remaining()
                },
            },
    {
        let saved: &'a [u8] = self.stream;
        match self.read_varint_unwound() {
            Ok(v) => Ok(v),
            Err(e) => {
                self.stream = saved;
                Err(e)
            },
        }
    }

    /// The recursive worker behind `read_varint`: on failure the source is
    /// left wherever the last read stopped.
    fn read_varint_unwound(&mut self) -> (r: Result<usize, IoError>)
        ensures
            final(self).byte_order() == old(self).byte_order(),
            match r {
                Ok(v) => {
                    &&& parse_varint(old(self).remaining()) is Some
                    &&& v as nat == parse_value(parse_varint(old(self).remaining()))
                    &&& final(self).remaining() == old(self).remaining().skip(
                        parse_len(parse_varint(old(self).remaining())) as int,
                    )
                },
                Err(_) => parse_varint(old(self).remaining()) is None || parse_value(
                    parse_varint(old(self).remaining()),
                ) > usize::MAX,
            },
        decreases old(self).remaining().len(),
    {
        let ghost rem0: Seq<u8> = self.stream@;
        let b = match self.read_byte() {
            Ok(b) => b,
            Err(e) => {
                return Err(e);
            },
        };
        proof {
            assert(rem0.drop_first() =~= rem0.skip(1));
        }
        if b < 128 {
            assert(parse_varint(rem0) == Some((b as nat, 1nat)));
            Ok(b as usize)
        } else {
            let ghost rem1: Seq<u8> = self.stream@;
            let rest = match self.read_varint_unwound() {
                Ok(v) => v,
                Err(e) => {
                    proof {
                        if parse_varint(rem1) is Some {
                            let v = parse_value(parse_varint(rem1));
                            assert(parse_value(parse_varint(rem0)) == (b - 128) + 128 * v);
                            assert(128 * v >= v);
                        }
                    }
                    return Err(e);
                },
            };
            let low: usize = (b - 128) as usize;
            proof {
                vstd::arithmetic::div_mod::lemma_fundamental_div_mod(
                    (usize::MAX - low) as int,
                    128,
                );
            }
            if rest > (usize::MAX - low) / 128 {
                proof {
                    assert(parse_value(parse_varint(rem0)) == low + 128 * (rest as nat));
                    assert(low + 128 * (rest as nat) > usize::MAX);
                }
                return Err(IoError);
            }
            proof {
                assert(128 * (rest as nat) <= usize::MAX - low);
                assert(parse_value(parse_varint(rem0)) == low + 128 * (rest as nat));
                assert(parse_len(parse_varint(rem0)) == 1 + parse_len(parse_varint(rem1)));
                lemma_parse_varint_bounds(rem1);
                assert(rem0.skip(1).skip(parse_len(parse_varint(rem1)) as int) =~= rem0.skip(
                    1 + parse_len(parse_varint(rem1)) as int,
                ));
            }
            Ok(low + 128 * rest)
        }
    }

    /// Reads one 4-byte length field under the configured byte order; fails
    /// exactly when fewer than 4 bytes remain.
    pub fn read_u32(&mut self) -> (r: Result<u32, IoError>)
        ensures
            final(self).byte_order() == old(self).byte_order(),
            match r {
                Ok(v) => {
                    &&& old(self).remaining().len() >= 4
                    &&& v as nat == u32_value(
                        old(self).byte_order(),
                        old(self).remaining().subrange(0, 4),
                    )
                    &&& final(self).remaining() == old(self).remaining().skip(4)
                },
                Err(_) => old(self).remaining().len() < 4 && final(self).remaining() == old(
                    self,
                ).remaining(),
            },
    {
        if self.stream.len() < 4 {
            return Err(IoError);
        }
        let b0 = self.stream[0];
        let b1 = self.stream[1];
        let b2 = self.stream[2];
        let b3 = self.stream[3];
        self.stream = slice_subrange(self.stream, 4, self.stream.len());
        let v: u32 = match self.order {
            ByteOrder::Little => b0 as u32 + 256 * (b1 as u32) + 65536 * (b2 as u32) + 16777216 * (
            b3 as u32),
            ByteOrder::Big => b3 as u32 + 256 * (b2 as u32) + 65536 * (b1 as u32) + 16777216 * (
            b0 as u32),
        };
        Ok(v)
    }

    /// Reads exactly `n` bytes; fails exactly when fewer remain.
    fn read_exact(&mut self, n: usize) -> (r: Result<Vec<u8>, IoError>)
        ensures
            final(self).byte_order() == old(self).byte_order(),
            match r {
                Ok(bytes) => {
                    &&& old(self).remaining().len() >= n
                    &&& bytes@ == old(self).remaining().take(n as int)
                    &&& final(self).remaining() == old(self).remaining().skip(n as int)
                },
                Err(_) => old(self).remaining().len() < n && final(self).remaining() == old(
                    self,
                ).remaining(),
            },
    {
        if self.stream.len() < n {
            return Err(IoError);
        }
        let chunk = slice_subrange(self.stream, 0, n);
        let out = slice_to_vec(chunk);
        self.stream = slice_subrange(self.stream, n, self.stream.len());
        Ok(out)
    }

    /// Reads one frame: the varint size field, then segments until that
    /// many declared bytes are consumed. Succeeds exactly when the
    /// remaining bytes begin with one complete frame; the segments come
    /// back in wire order, and exactly the frame's bytes are consumed. On
    /// failure the source is left where it was and no partial result is
    /// returned.
    #[verifier::loop_isolation(false)]
    #[verifier::rlimit(60)]
    pub fn read_data(&mut self) -> (r: Result<Vec<Segment>, IoError>)
        ensures
            final(self).byte_order() == old(self).byte_order(),
            match r {
                Ok(segments) => {
                    &&& parse_frame(old(self).remaining(), old(self).byte_order()) is Some
                    &&& seg_views(segments@) == parse_value(
                        parse_frame(old(self).remaining(), old(self).byte_order()),
                    )
                    &&& final(self).remaining() == old(self).remaining().skip(
                        parse_len(parse_frame(old(self).remaining(), old(self).byte_order())) as int,
                    )
                },
                Err(_) => {
                    &&& parse_frame(old(self).remaining(), old(self).byte_order()) is None
                    &&& final(self).remaining() == old(self).remaining()
                },
            },
    {
        let saved: &'a [u8] = self.stream;
        let ghost rem0: Seq<u8> = self.stream@;
        let ghost order: ByteOrder = self.order;
        let cap: usize = saved.len();
        let total = match self.read_varint() {
            Ok(v) => v,
            Err(e) => {
                proof {
                    if parse_varint(rem0) is Some {
                        let v = parse_value(parse_varint(rem0));
                        let vn = parse_len(parse_varint(rem0));
                        lemma_parse_varint_bounds(rem0);
                        if parse_body(rem0.skip(vn as int), v, order) is Some {
                            lemma_parse_body_bounds(rem0.skip(vn as int), v, order);
                            assert(false);
                        }
                    }
                }
                return Err(e);
            },
        };
        let ghost vn: nat = parse_len(parse_varint(rem0));
        let ghost rem1: Seq<u8> = self.stream@;
        proof {
            lemma_parse_varint_bounds(rem0);
        }
        let mut data: Vec<Segment> = Vec::new();
        let mut consumed: usize = 0;
        while consumed < total
            invariant
                self.order == order,
                consumed as nat == rem1.len() - self.stream@.len(),
                self.stream@ == rem1.skip(consumed as int),
                parse_body(rem1, total as nat, order) == parse_extend(
                    seg_views(data@),
                    consumed as nat,
                    parse_body(self.stream@, sat_sub(total as nat, consumed as nat), order),
                ),
            decreases sat_sub(total as nat, consumed as nat),
        {
            let ghost cur: Seq<u8> = self.stream@;
            let ghost rem_left: nat = sat_sub(total as nat, consumed as nat);
            let ghost pre: Seq<Seq<u8>> = seg_views(data@);
            let len_field = match self.read_u32() {
                Ok(v) => v,
                Err(e) => {
                    proof {
                        assert(parse_body(cur, rem_left, order) is None);
                        assert(parse_frame(rem0, order) is None);
                    }
                    self.stream = saved;
                    return Err(e);
                },
            };
            let len = len_field as usize;
            let ghost step: nat = 4 + len as nat;
            let payload = match self.read_exact(len) {
                Ok(v) => v,
                Err(e) => {
                    proof {
                        assert(cur.skip(4).len() == cur.len() - 4);
                        assert(cur.len() < 4 + (len as nat));
                        assert(parse_body(cur, rem_left, order) is None);
                        assert(parse_frame(rem0, order) is None);
                    }
                    self.stream = saved;
                    return Err(e);
                },
            };
            let ghost payload_bytes: Seq<u8> = payload@;
            data.push(Segment::from_bytes(payload));
            proof {
                assert(payload_bytes =~= cur.subrange(4, step as int));
                assert(self.stream@ =~= cur.skip(step as int));
                assert(self.stream@ =~= rem1.skip(consumed + step));
                assert(parse_body(cur, rem_left, order) == parse_extend(
                    seq![cur.subrange(4, step as int)],
                    step,
                    parse_body(cur.skip(step as int), sat_sub(rem_left, step), order),
                ));
                lemma_parse_extend_assoc(
                    pre,
                    consumed as nat,
                    seq![cur.subrange(4, step as int)],
                    step,
                    parse_body(cur.skip(step as int), sat_sub(rem_left, step), order),
                );
                assert(seg_views(data@) =~= pre + seq![cur.subrange(4, step as int)]);
                assert(sat_sub(rem_left, step) == sat_sub(total as nat, consumed as nat + step));
            }
            consumed = consumed + 4;
            consumed = consumed + len;
        }
        proof {
            assert(sat_sub(total as nat, consumed as nat) == 0);
            assert(parse_body(self.stream@, 0, order) == Some((Seq::<Seq<u8>>::empty(), 0nat)));
            assert(seg_views(data@) + Seq::<Seq<u8>>::empty() =~= seg_views(data@));
            assert(parse_body(rem1, total as nat, order) == Some(
                (seg_views(data@), consumed as nat),
            ));
            assert(parse_frame(rem0, order) == Some((seg_views(data@), vn + consumed as nat)));
            assert(self.stream@ =~= rem0.skip((vn + consumed as nat) as int));
        }
        Ok(data)
    }
}

} // verus!
