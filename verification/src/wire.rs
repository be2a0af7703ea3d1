//! The wire format, stated as mathematics and implemented on byte buffers.
//!
//! A frame is `varint(total_size)` followed by the body: for each segment a
//! 4-byte length field and the segment's bytes. `total_size` is the byte
//! count of the body, not of the varint itself.

use vstd::prelude::*;

verus! {

/// Byte order of the fixed 4-byte length fields. Both ends of a wire must
/// agree on it: the frame does not carry it.
#[derive(Clone, Copy, Debug, PartialEq, Eq, Structural)]
pub enum ByteOrder {
    Little,
    Big,
}

/// The one error the codec surfaces: the byte source ended before the frame
/// did, or a declared size does not fit this machine.
#[derive(Clone, Copy, Debug, PartialEq, Eq, Structural)]
pub struct IoError;

/// The LEB128-style encoding of `v`: 7 payload bits per byte, low bits
/// first, the high bit of each byte flagging a continuation.
pub open spec fn varint_bytes(v: nat) -> Seq<u8>
    decreases v,
{
    if v < 128 {
        seq![v as u8]
    } else {
        seq![(v % 128 + 128) as u8] + varint_bytes(v / 128)
    }
}

/// The 4-byte encoding of `v` under `order`.
pub open spec fn u32_bytes(order: ByteOrder, v: u32) -> Seq<u8> {
    match order {
        ByteOrder::Little => seq![
            (v as nat % 256) as u8,
            (v as nat / 256 % 256) as u8,
            (v as nat / 65536 % 256) as u8,
            (v as nat / 16777216 % 256) as u8,
        ],
        ByteOrder::Big => seq![
            (v as nat / 16777216 % 256) as u8,
            (v as nat / 65536 % 256) as u8,
            (v as nat / 256 % 256) as u8,
            (v as nat % 256) as u8,
        ],
    }
}

/// The value a 4-byte length field holds under `order`.
pub open spec fn u32_value(order: ByteOrder, b: Seq<u8>) -> nat
    recommends
        b.len() == 4,
{
    match order {
        ByteOrder::Little => (b[0] + 256 * b[1] + 65536 * b[2] + 16777216 * b[3]) as nat,
        ByteOrder::Big => (b[3] + 256 * b[2] + 65536 * b[1] + 16777216 * b[0]) as nat,
    }
}

/// The size field of a frame: the sum over all segments of `len + 4`.
pub open spec fn total_size(segs: Seq<Seq<u8>>) -> nat
    decreases segs.len(),
{
    if segs.len() == 0 {
        0
    } else {
        segs[0].len() + 4 + total_size(segs.drop_first())
    }
}

/// Every segment length fits the 4-byte length field of the wire format.
pub open spec fn lengths_fit(segs: Seq<Seq<u8>>) -> bool {
    forall|i: int| 0 <= i < segs.len() ==> #[trigger] segs[i].len() < 0x1_0000_0000
}

/// Whether a list of segments fits the wire format and this machine: each
/// length fits the 4-byte field, and the total fits `usize`.
pub open spec fn encodable(segs: Seq<Seq<u8>>) -> bool {
    &&& total_size(segs) <= usize::MAX
    &&& lengths_fit(segs)
}

/// The body of a frame: each segment's length field followed by its bytes.
pub open spec fn body_bytes(segs: Seq<Seq<u8>>, order: ByteOrder) -> Seq<u8>
    decreases segs.len(),
{
    if segs.len() == 0 {
        Seq::empty()
    } else {
        u32_bytes(order, segs[0].len() as u32) + segs[0] + body_bytes(segs.drop_first(), order)
    }
}

/// One whole frame: the varint size field, then the body.
pub open spec fn frame_bytes(segs: Seq<Seq<u8>>, order: ByteOrder) -> Seq<u8> {
    varint_bytes(total_size(segs)) + body_bytes(segs, order)
}

/// Parses a varint from the front of `s`: the value and the bytes consumed,
/// or `None` if `s` ends before a byte with a clear high bit.
pub open spec fn parse_varint(s: Seq<u8>) -> Option<(nat, nat)>
    decreases s.len(),
{
    if s.len() == 0 {
        None
    } else if s[0] < 128 {
        Some((s[0] as nat, 1))
    } else {
        match parse_varint(s.drop_first()) {
            None => None,
            Some((v, n)) => Some((((s[0] - 128) + 128 * v) as nat, n + 1)),
        }
    }
}

/// Parses segments from the front of `s` until at least `rem` declared
/// bytes are consumed: the segments and the bytes consumed, or `None` if
/// `s` ends too early.
pub open spec fn parse_body(s: Seq<u8>, rem: nat, order: ByteOrder) -> Option<(Seq<Seq<u8>>, nat)>
    decreases rem,
{
    if rem == 0 {
        Some((Seq::empty(), 0))
    } else if s.len() < 4 {
        None
    } else {
        let len = u32_value(order, s.subrange(0, 4));
        if s.len() < 4 + len {
            None
        } else {
            let step: nat = 4 + len;
            let rem2: nat = if step >= rem {
                0
            } else {
                (rem - step) as nat
            };
            match parse_body(s.skip(step as int), rem2, order) {
                None => None,
                Some((segs, n)) => Some((seq![s.subrange(4, step as int)] + segs, step + n)),
            }
        }
    }
}

/// Parses one whole frame from the front of `s`: the segments and the bytes
/// consumed, or `None` if `s` ends before the frame does.
pub open spec fn parse_frame(s: Seq<u8>, order: ByteOrder) -> Option<(Seq<Seq<u8>>, nat)> {
    match parse_varint(s) {
        None => None,
        Some((total, vn)) => match parse_body(s.skip(vn as int), total, order) {
            None => None,
            Some((segs, bn)) => Some((segs, vn + bn)),
        },
    }
}

/// The parsed value of a parse result, when there is one.
pub open spec fn parse_value<T>(r: Option<(T, nat)>) -> T
    recommends
        r is Some,
{
    match r {
        Some((v, n)) => v,
        None => arbitrary(),
    }
}

/// The bytes a parse result consumed, when there is one.
pub open spec fn parse_len<T>(r: Option<(T, nat)>) -> nat
    recommends
        r is Some,
{
    match r {
        Some((v, n)) => n,
        None => arbitrary(),
    }
}

/// `a - b`, stopping at zero.
pub open spec fn sat_sub(a: nat, b: nat) -> nat {
    if a <= b {
        0
    } else {
        (a - b) as nat
    }
}

/// Prepends already-parsed segments and already-consumed bytes to a parse
/// result.
pub open spec fn parse_extend(pre: Seq<Seq<u8>>, c: nat, r: Option<(Seq<Seq<u8>>, nat)>) -> Option<
    (Seq<Seq<u8>>, nat),
> {
    match r {
        None => None,
        Some((segs, n)) => Some((pre + segs, c + n)),
    }
}

/// Extending twice is extending once by the concatenation.
pub proof fn lemma_parse_extend_assoc(
    pre: Seq<Seq<u8>>,
    c: nat,
    mid: Seq<Seq<u8>>,
    m: nat,
    r: Option<(Seq<Seq<u8>>, nat)>,
)
    ensures
        parse_extend(pre, c, parse_extend(mid, m, r)) == parse_extend(pre + mid, (c + m) as nat, r),
{
    match r {
        None => {},
        Some((segs, n)) => {
            assert(pre + (mid + segs) =~= (pre + mid) + segs);
        },
    }
}

/// A successful varint parse consumes at least one byte and at most all of
/// `s`.
pub proof fn lemma_parse_varint_bounds(s: Seq<u8>)
    requires
        parse_varint(s) is Some,
    ensures
        1 <= parse_len(parse_varint(s)) <= s.len(),
    decreases s.len(),
{
    if s.len() == 0 {
    } else if s[0] < 128 {
    } else {
        lemma_parse_varint_bounds(s.drop_first());
    }
}

/// A successful body parse consumes at least `rem` bytes and at most all
/// of `s`.
pub proof fn lemma_parse_body_bounds(s: Seq<u8>, rem: nat, order: ByteOrder)
    requires
        parse_body(s, rem, order) is Some,
    ensures
        rem <= parse_len(parse_body(s, rem, order)),
        parse_len(parse_body(s, rem, order)) <= s.len(),
    decreases rem,
{
    if rem == 0 {
    } else {
        let len = u32_value(order, s.subrange(0, 4));
        let step: nat = 4 + len;
        let rem2: nat = if step >= rem {
            0
        } else {
            (rem - step) as nat
        };
        lemma_parse_body_bounds(s.skip(step as int), rem2, order);
    }
}

/// The frame size splits across any cut of the segment list.
pub proof fn lemma_total_size_split(segs: Seq<Seq<u8>>, i: int)
    requires
        0 <= i <= segs.len(),
    ensures
        total_size(segs) == total_size(segs.take(i)) + total_size(segs.skip(i)),
    decreases i,
{
    if i == 0 {
        assert(segs.take(0) =~= Seq::<Seq<u8>>::empty());
        assert(segs.skip(0) =~= segs);
    } else {
        lemma_total_size_split(segs.drop_first(), i - 1);
        assert(segs.take(i).drop_first() =~= segs.drop_first().take(i - 1));
        assert(segs.skip(i) =~= segs.drop_first().skip(i - 1));
        assert(segs.take(i)[0] == segs[0]);
    }
}

/// Appending one segment grows the frame size by its length plus 4.
pub proof fn lemma_total_size_push(segs: Seq<Seq<u8>>, x: Seq<u8>)
    ensures
        total_size(segs.push(x)) == total_size(segs) + x.len() + 4,
    decreases segs.len(),
{
    if segs.len() == 0 {
        assert(segs.push(x)[0] == x);
        assert(segs.push(x).drop_first() =~= Seq::<Seq<u8>>::empty());
        assert(total_size(segs.push(x)) == x.len() + 4 + total_size(
            segs.push(x).drop_first(),
        ));
    } else {
        lemma_total_size_push(segs.drop_first(), x);
        assert(segs.push(x).drop_first() =~= segs.drop_first().push(x));
        assert(segs.push(x)[0] == segs[0]);
    }
}

/// Appending one segment appends its length field and bytes to the body.
pub proof fn lemma_body_bytes_push(segs: Seq<Seq<u8>>, x: Seq<u8>, order: ByteOrder)
    ensures
        body_bytes(segs.push(x), order) == body_bytes(segs, order) + u32_bytes(
            order,
            x.len() as u32,
        ) + x,
    decreases segs.len(),
{
    if segs.len() == 0 {
        assert(segs.push(x).drop_first() =~= Seq::<Seq<u8>>::empty());
        assert(segs.push(x)[0] == x);
        assert(body_bytes(segs.push(x), order) == u32_bytes(order, x.len() as u32) + x
            + body_bytes(segs.push(x).drop_first(), order));
        assert(body_bytes(segs.push(x), order) =~= body_bytes(segs, order) + u32_bytes(
            order,
            x.len() as u32,
        ) + x);
    } else {
        lemma_body_bytes_push(segs.drop_first(), x, order);
        assert(segs.push(x).drop_first() =~= segs.drop_first().push(x));
        assert(segs.push(x)[0] == segs[0]);
        assert(body_bytes(segs.push(x), order) =~= body_bytes(segs, order) + u32_bytes(
            order,
            x.len() as u32,
        ) + x);
    }
}

/// Whether a varint byte flags that more bytes follow. A streaming caller
/// can pull bytes one at a time until this is false and hand the whole
/// varint to the decoder.
pub fn has_continuation_bit(b: u8) -> (r: bool)
    ensures
        r == (b >= 128),
{
    b >= 128
}

/// Appends a whole byte slice to `out`.
pub fn push_bytes(out: &mut Vec<u8>, bytes: &[u8])
    ensures
        final(out)@ == old(out)@ + bytes@,
{
    let ghost base: Seq<u8> = out@;
    let mut j: usize = 0;
    while j < bytes.len()
        invariant
            j <= bytes@.len(),
            out@ == base + bytes@.take(j as int),
        decreases bytes@.len() - j,
    {
        out.push(bytes[j]);
        proof {
            assert(bytes@.take(j + 1) =~= bytes@.take(j as int).push(bytes@[j as int]));
            assert(out@ =~= base + bytes@.take(j + 1));
        }
        j = j + 1;
    }
    proof {
        assert(bytes@.take(bytes@.len() as int) =~= bytes@);
    }
}

/// Appends the varint encoding of `value` to `out`.
pub fn encode_varint_into(out: &mut Vec<u8>, value: usize)
    ensures
        final(out)@ == old(out)@ + varint_bytes(value as nat),
{
    let ghost base: Seq<u8> = out@;
    let mut v: usize = value;
    loop
        invariant_except_break
            out@ + varint_bytes(v as nat) == base + varint_bytes(value as nat),
        ensures
            out@ == base + varint_bytes(value as nat),
        decreases v,
    {
        let ghost v0: nat = v as nat;
        let ghost pre: Seq<u8> = out@;
        let low: u8 = (v % 128) as u8;
        let rest: usize = v / 128;
        if rest != 0 {
            out.push(low + 128);
            proof {
                assert(varint_bytes(v0) == seq![(v0 % 128 + 128) as u8] + varint_bytes(v0 / 128));
                assert(out@ + varint_bytes(rest as nat) =~= pre + varint_bytes(v0));
            }
        } else {
            out.push(low);
            proof {
                assert(varint_bytes(v0) == seq![v0 as u8]);
                assert(out@ =~= pre + varint_bytes(v0));
            }
        }
        v = rest;
        if v == 0 {
            proof {
                assert(out@ =~= base + varint_bytes(value as nat));
            }
            break;
        }
    }
}

/// Appends the 4-byte encoding of `value` under `order` to `out`.
pub fn encode_u32_into(out: &mut Vec<u8>, order: ByteOrder, value: u32)
    ensures
        final(out)@ == old(out)@ + u32_bytes(order, value),
{
    let b0: u8 = (value % 256) as u8;
    let b1: u8 = (value / 256 % 256) as u8;
    let b2: u8 = (value / 65536 % 256) as u8;
    let b3: u8 = (value / 16777216) as u8;
    match order {
        ByteOrder::Little => {
            out.push(b0);
            out.push(b1);
            out.push(b2);
            out.push(b3);
        }
        ByteOrder::Big => {
            out.push(b3);
            out.push(b2);
            out.push(b1);
            out.push(b0);
        }
    }
    proof {
        assert(out@ =~= old(out)@ + u32_bytes(order, value));
    }
}

} // verus!
