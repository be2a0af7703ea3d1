//! The codec's laws, proved over the wire-format model: encoding then
//! parsing gives back what was encoded, a conforming frame is consumed
//! exactly, and a frame cut short never parses.

use vstd::prelude::*;

verus! {

use vstd::arithmetic::div_mod::{lemma_fundamental_div_mod, lemma_div_denominator, lemma_small_mod};
use crate::wire::{
    ByteOrder, varint_bytes, u32_bytes, u32_value, total_size, body_bytes, frame_bytes,
    parse_varint, parse_body, parse_frame, lengths_fit, lemma_parse_body_bounds,
};

/// A varint parses back to the value it encodes, whatever bytes follow it,
/// and exactly its own bytes are consumed.
pub proof fn lemma_varint_round_trip(v: nat, rest: Seq<u8>)
    ensures
        parse_varint(varint_bytes(v) + rest) == Some((v, varint_bytes(v).len())),
    decreases v,
{
    let s = varint_bytes(v) + rest;
    if v < 128 {
        assert(s[0] == (v as u8));
        assert((v as u8) < 128);
        assert((v as u8) as nat == v);
    } else {
        lemma_varint_round_trip(v / 128, rest);
        assert(s[0] == ((v % 128 + 128) as u8));
        assert(s[0] >= 128);
        assert(s.drop_first() =~= varint_bytes(v / 128) + rest);
        lemma_fundamental_div_mod(v as int, 128);
        assert((s[0] - 128) + 128 * (v / 128) == v);
        assert(varint_bytes(v).len() == 1 + varint_bytes(v / 128).len());
    }
}

/// A varint cut short parses as nothing.
pub proof fn lemma_varint_truncated(v: nat, k: int)
    requires
        0 <= k < varint_bytes(v).len(),
    ensures
        parse_varint(varint_bytes(v).take(k)) is None,
    decreases v,
{
    if k == 0 {
        assert(varint_bytes(v).take(0) =~= Seq::<u8>::empty());
    } else {
        assert(varint_bytes(v).len() > 1);
        assert(v >= 128);
        let t = varint_bytes(v).take(k);
        assert(t[0] == ((v % 128 + 128) as u8));
        assert(t[0] >= 128);
        assert(t.drop_first() =~= varint_bytes(v / 128).take(k - 1));
        lemma_varint_truncated(v / 128, k - 1);
    }
}

/// A length field decodes to the value it encodes, under the byte order it
/// was encoded with.
pub proof fn lemma_u32_round_trip(order: ByteOrder, v: u32)
    ensures
        u32_bytes(order, v).len() == 4,
        u32_value(order, u32_bytes(order, v)) == v,
{
    let n = v as int;
    lemma_fundamental_div_mod(n, 256);
    lemma_fundamental_div_mod(n / 256, 256);
    lemma_fundamental_div_mod(n / 65536, 256);
    lemma_div_denominator(n, 256, 256);
    lemma_div_denominator(n, 65536, 256);
    assert(n / 16777216 < 256);
    assert(n / 16777216 % 256 == n / 16777216) by {
        lemma_small_mod((n / 16777216) as nat, 256);
    }
}

/// The same length value encodes under the two byte orders to the same
/// four bytes in opposite order.
pub proof fn lemma_u32_bytes_reverse(v: u32)
    ensures
        u32_bytes(ByteOrder::Big, v) == u32_bytes(ByteOrder::Little, v).reverse(),
{
    assert(u32_bytes(ByteOrder::Big, v) =~= u32_bytes(ByteOrder::Little, v).reverse());
}

/// The body of a frame is exactly `total_size` bytes long.
pub proof fn lemma_body_bytes_len(segs: Seq<Seq<u8>>, order: ByteOrder)
    requires
        lengths_fit(segs),
    ensures
        body_bytes(segs, order).len() == total_size(segs),
    decreases segs.len(),
{
    if segs.len() == 0 {
    } else {
        assert forall|i: int|
            0 <= i < segs.drop_first().len() implies #[trigger] segs.drop_first()[i].len()
            < 0x1_0000_0000 by {
            assert(segs.drop_first()[i] == segs[i + 1]);
        }
        lemma_body_bytes_len(segs.drop_first(), order);
    }
}

/// A conforming body parses back to exactly its segments: the parse
/// consumes exactly `total_size` bytes and then stops.
pub proof fn lemma_body_round_trip(segs: Seq<Seq<u8>>, order: ByteOrder)
    requires
        lengths_fit(segs),
    ensures
        parse_body(body_bytes(segs, order), total_size(segs), order) == Some(
            (segs, total_size(segs)),
        ),
    decreases segs.len(),
{
    if segs.len() == 0 {
        assert(segs =~= Seq::<Seq<u8>>::empty());
    } else {
        let rest = segs.drop_first();
        assert forall|i: int|
            0 <= i < rest.len() implies #[trigger] rest[i].len() < 0x1_0000_0000 by {
            assert(rest[i] == segs[i + 1]);
        }
        lemma_body_round_trip(rest, order);
        lemma_body_bytes_len(rest, order);
        let len0 = segs[0].len();
        assert(len0 < 0x1_0000_0000);
        let lf = u32_bytes(order, len0 as u32);
        let s = body_bytes(segs, order);
        let total = total_size(segs);
        lemma_u32_round_trip(order, len0 as u32);
        assert(s =~= lf + segs[0] + body_bytes(rest, order));
        assert(s.subrange(0, 4) =~= lf);
        assert((len0 as u32) as nat == len0);
        assert(u32_value(order, s.subrange(0, 4)) == len0);
        let step: nat = 4 + len0;
        assert(s.len() == 4 + len0 + body_bytes(rest, order).len());
        assert(s.subrange(4, step as int) =~= segs[0]);
        assert(s.skip(step as int) =~= body_bytes(rest, order));
        if rest.len() == 0 {
            assert(total_size(rest) == 0);
        }
        assert(total == step + total_size(rest));
        assert(parse_body(s, total, order) == Some(
            (seq![segs[0]] + rest, step + total_size(rest)),
        ));
        assert(seq![segs[0]] + rest =~= segs);
    }
}

/// Round-trip: parsing the frame encoded from any segment list gives back
/// exactly that list, in order; the parse consumes the whole frame — the
/// varint, then exactly `total_size` more bytes.
pub proof fn lemma_frame_round_trip(segs: Seq<Seq<u8>>, order: ByteOrder)
    requires
        lengths_fit(segs),
    ensures
        parse_frame(frame_bytes(segs, order), order) == Some(
            (segs, frame_bytes(segs, order).len()),
        ),
        frame_bytes(segs, order).len() == varint_bytes(total_size(segs)).len() + total_size(segs),
{
    let total = total_size(segs);
    let vb = varint_bytes(total);
    let body = body_bytes(segs, order);
    lemma_varint_round_trip(total, body);
    lemma_body_bytes_len(segs, order);
    lemma_body_round_trip(segs, order);
    assert((vb + body).skip(vb.len() as int) =~= body);
}

/// Truncation: a frame cut anywhere short of its end parses as nothing, so
/// a source that ends early can never yield a partial result.
pub proof fn lemma_frame_truncated(segs: Seq<Seq<u8>>, order: ByteOrder, k: int)
    requires
        lengths_fit(segs),
        0 <= k < frame_bytes(segs, order).len(),
    ensures
        parse_frame(frame_bytes(segs, order).take(k), order) is None,
{
    let total = total_size(segs);
    let vb = varint_bytes(total);
    let body = body_bytes(segs, order);
    let t = frame_bytes(segs, order).take(k);
    lemma_body_bytes_len(segs, order);
    if k < vb.len() {
        assert(t =~= vb.take(k));
        lemma_varint_truncated(total, k);
    } else {
        let j = k - vb.len();
        assert(t =~= vb + body.take(j));
        lemma_varint_round_trip(total, body.take(j));
        assert(t.skip(vb.len() as int) =~= body.take(j));
        if parse_body(body.take(j), total, order) is Some {
            lemma_parse_body_bounds(body.take(j), total, order);
            assert(false);
        }
    }
}

} // verus!
