use crate::error::{Error, Result};
use vstd::prelude::*;

verus! {

/// Longest encoding a 32-bit value can take.
pub const MAX_BYTES: usize = 5;

/// The bytes that encode the bit pattern `v`: seven bits at a time, lowest
/// group first, with the high bit set on every byte but the last.
pub open spec fn varint_bytes(v: u32) -> Seq<u8>
    decreases v,
{
    if v >> 7u32 == 0 {
        seq![(v & 0x7f) as u8]
    } else {
        proof {
            lemma_shift_decreases(v);
        }
        seq![((v & 0x7f) | 0x80) as u8] + varint_bytes(v >> 7u32)
    }
}

pub proof fn lemma_shift_decreases(v: u32)
    ensures
        v >> 7u32 != 0 ==> v >> 7u32 < v,
        v >> 7u32 <= v,
{
    assert(v >> 7u32 != 0 ==> v >> 7u32 < v) by (bit_vector);
    assert(v >> 7u32 <= v) by (bit_vector);
}

/// The value that byte `b` contributes at group `i` of a varint.
pub open spec fn group_bits(b: u8, i: u32) -> u32 {
    ((b & 0x7f) as u32) << (7 * i)
}

/// Decoding from position `i` on, with `acc` the bits gathered so far: the
/// value and the number of bytes read, or `None` when no byte among the
/// first five ends the varint.
pub open spec fn decode_from(data: Seq<u8>, i: nat, acc: u32) -> Option<(u32, nat)>
    decreases 5 - i,
{
    if i >= 5 || i >= data.len() {
        None
    } else {
        let b = data[i as int];
        let acc2 = acc | group_bits(b, i as u32);
        if b & 0x80 == 0 {
            Some((acc2, i + 1))
        } else {
            decode_from(data, i + 1, acc2)
        }
    }
}

/// What `decode` reads from the start of `data`.
pub open spec fn decode_spec(data: Seq<u8>) -> Option<(u32, nat)> {
    decode_from(data, 0, 0)
}

/// Append a VarInt to a byte buffer.
pub fn encode(buf: &mut Vec<u8>, value: i32)
    ensures
        final(buf)@ == old(buf)@ + varint_bytes(value as u32),
{
    let mut v: u32 = value as u32;
    loop
        invariant_except_break
            buf@ + varint_bytes(v) == old(buf)@ + varint_bytes(value as u32),
        ensures
            buf@ == old(buf)@ + varint_bytes(value as u32),
        decreases v,
    {
        assert(v & 0x7f < 128) by (bit_vector);
        let mut byte: u8 = (v & 0x7f) as u8;
        let ghost before = v;
        proof {
            lemma_shift_decreases(v);
        }
        v = v >> 7;
        if v != 0 {
            byte = byte | 0x80;
            assert(((before & 0x7f) as u8 | 0x80) == ((before & 0x7f) | 0x80) as u8) by (bit_vector);
        }
        let ghost old_buf = buf@;
        buf.push(byte);
        assert(buf@ == old_buf + seq![byte]);
        if v == 0 {
            assert(varint_bytes(before) == seq![byte]);
            break;
        }
        assert(varint_bytes(before) == seq![byte] + varint_bytes(v));
        assert(buf@ + varint_bytes(v) == old_buf + (seq![byte] + varint_bytes(v)));
    }
}

/// Number of bytes needed to encode this value.
pub fn size(value: i32) -> (res: usize)
    ensures
        res == varint_bytes(value as u32).len(),
        1 <= res <= 5,
{
    let mut v: u32 = value as u32;
    let mut len: usize = 0;
    proof {
        lemma_varint_len_bound(v);
    }
    loop
        invariant
            len + varint_bytes(v).len() == varint_bytes(value as u32).len(),
            varint_bytes(value as u32).len() <= 5,
        decreases v,
    {
        len += 1;
        proof {
            lemma_shift_decreases(v);
        }
        let ghost before = v;
        v = v >> 7;
        if v == 0 {
            assert(varint_bytes(before).len() == 1);
            return len;
        }
        assert(varint_bytes(before).len() == 1 + varint_bytes(v).len());
    }
}

/// Every value takes between one and five bytes.
pub proof fn lemma_varint_len_bound(v: u32)
    ensures
        1 <= varint_bytes(v).len() <= 5,
{
    let v1 = v >> 7u32;
    let v2 = v1 >> 7u32;
    let v3 = v2 >> 7u32;
    let v4 = v3 >> 7u32;
    assert(v4 >> 7u32 == 0) by (bit_vector)
        requires
            v1 == v >> 7u32,
            v2 == v1 >> 7u32,
            v3 == v2 >> 7u32,
            v4 == v3 >> 7u32,
    ;
    reveal_with_fuel(varint_bytes, 6);
}

/// Decode a VarInt from a byte slice.
/// Returns `(value, bytes_consumed)`.
pub fn decode(data: &[u8]) -> (res: Result<(i32, usize)>)
    ensures
        match decode_spec(data@) {
            Some((v, n)) => res matches Ok((value, consumed)) && value == v as i32 && consumed == n,
            None => res matches Err(Error::VarIntTooLong),
        },
{
    let mut result: u32 = 0;
    let mut i: usize = 0;
    while i < MAX_BYTES && i < data.len()
        invariant
            i <= 5,
            decode_spec(data@) == decode_from(data@, i as nat, result),
        decreases 5 - i,
    {
        let byte = data[i];
        result = result | (((byte & 0x7f) as u32) << (7 * i as u32));
        if byte & 0x80 == 0 {
            return Ok((result as i32, i + 1));
        }
        i += 1;
    }
    Err(Error::VarIntTooLong)
}

/// The shape of an encoding: every byte but the last has its high bit set,
/// the last has it clear, and the last byte is zero only when it is the only
/// byte (the encoding of zero).
pub proof fn lemma_varint_shape(v: u32)
    ensures
        varint_bytes(v).len() >= 1,
        forall|i: int|
            0 <= i < varint_bytes(v).len() - 1 ==> #[trigger] varint_bytes(v)[i] & 0x80 != 0,
        varint_bytes(v)[varint_bytes(v).len() - 1] & 0x80 == 0,
        varint_bytes(v).len() > 1 ==> varint_bytes(v)[varint_bytes(v).len() - 1] != 0,
        varint_bytes(v) == seq![0u8] <==> v == 0,
    decreases v,
{
    let b = varint_bytes(v);
    if v >> 7u32 == 0 {
        assert(((v & 0x7f) as u8) & 0x80 == 0) by (bit_vector);
        assert(v >> 7u32 == 0 ==> (((v & 0x7f) as u8) == 0 <==> v == 0)) by (bit_vector);
    } else {
        lemma_shift_decreases(v);
        let w = v >> 7u32;
        lemma_varint_shape(w);
        let r = varint_bytes(w);
        assert((((v & 0x7f) | 0x80) as u8) & 0x80 != 0) by (bit_vector);
        assert(b == seq![((v & 0x7f) | 0x80) as u8] + r);
        assert forall|i: int| 0 <= i < b.len() - 1 implies #[trigger] b[i] & 0x80 != 0 by {
            if i > 0 {
                assert(b[i] == r[i - 1]);
            }
        }
        assert(b[b.len() - 1] == r[r.len() - 1]);
        if r.len() == 1 {
            assert(w >> 7u32 == 0) by {
                if w >> 7u32 != 0 {
                    lemma_shift_decreases(w);
                    lemma_varint_shape(w >> 7u32);
                    assert(r == seq![((w & 0x7f) | 0x80) as u8] + varint_bytes(w >> 7u32));
                    assert(r.len() > 1);
                }
            }
            assert(w != 0 && w >> 7u32 == 0 ==> ((w & 0x7f) as u8) != 0) by (bit_vector);
        }
        assert(b.len() > 1);
    }
}

/// The lowest seven bits come first: the first byte holds them, with the
/// high bit set exactly when more bits remain, and the rest of the encoding
/// is the encoding of the value shifted right by seven.
pub proof fn lemma_varint_low_group_first(v: u32)
    ensures
        varint_bytes(v)[0] & 0x7f == v & 0x7f,
        v < 128 ==> varint_bytes(v) == seq![v as u8],
        v >= 128 ==> varint_bytes(v)[0] & 0x80 != 0 && varint_bytes(v).skip(1) == varint_bytes(v / 128),
{
    assert(v >> 7u32 == v / 128) by (bit_vector);
    assert(((v & 0x7f) as u8) & 0x7f == v & 0x7f) by (bit_vector);
    assert((((v & 0x7f) | 0x80) as u8) & 0x7f == v & 0x7f) by (bit_vector);
    assert((((v & 0x7f) | 0x80) as u8) & 0x80 != 0) by (bit_vector);
    assert(v < 128 ==> (v & 0x7f) as u8 == v as u8) by (bit_vector);
    if v >= 128 {
        lemma_shift_decreases(v);
        assert(varint_bytes(v).skip(1) =~= varint_bytes(v >> 7u32));
    }
}

/// Encoding then decoding gives back the same 32-bit pattern and reads exactly
/// the encoded bytes, whatever follows them.
pub proof fn lemma_varint_roundtrip(value: i32, rest: Seq<u8>)
    ensures
        decode_spec(varint_bytes(value as u32) + rest) == Some(
            (value as u32, varint_bytes(value as u32).len()),
        ),
        (value as u32) as i32 == value,
{
    lemma_decode_encode(value as u32, rest);
    assert((value as u32) as i32 == value) by (bit_vector);
}

proof fn lemma_decode_encode(v: u32, rest: Seq<u8>)
    ensures
        decode_spec(varint_bytes(v) + rest) == Some((v, varint_bytes(v).len())),
{
    let d = varint_bytes(v) + rest;
    let v1 = v >> 7u32;
    let v2 = v1 >> 7u32;
    let v3 = v2 >> 7u32;
    let v4 = v3 >> 7u32;
    assert(v4 >> 7u32 == 0) by (bit_vector)
        requires
            v1 == v >> 7u32,
            v2 == v1 >> 7u32,
            v3 == v2 >> 7u32,
            v4 == v3 >> 7u32,
    ;
    let c0 = ((v & 0x7f) | 0x80) as u8;
    let c1 = ((v1 & 0x7f) | 0x80) as u8;
    let c2 = ((v2 & 0x7f) | 0x80) as u8;
    let c3 = ((v3 & 0x7f) | 0x80) as u8;
    let e0 = (v & 0x7f) as u8;
    let e1 = (v1 & 0x7f) as u8;
    let e2 = (v2 & 0x7f) as u8;
    let e3 = (v3 & 0x7f) as u8;
    let e4 = (v4 & 0x7f) as u8;
    assert(c0 & 0x80 != 0 && c1 & 0x80 != 0 && c2 & 0x80 != 0 && c3 & 0x80 != 0) by (bit_vector)
        requires
            c0 == ((v & 0x7f) | 0x80) as u8,
            c1 == ((v1 & 0x7f) | 0x80) as u8,
            c2 == ((v2 & 0x7f) | 0x80) as u8,
            c3 == ((v3 & 0x7f) | 0x80) as u8,
    ;
    assert(e0 & 0x80 == 0 && e1 & 0x80 == 0 && e2 & 0x80 == 0 && e3 & 0x80 == 0 && e4 & 0x80
        == 0) by (bit_vector)
        requires
            e0 == (v & 0x7f) as u8,
            e1 == (v1 & 0x7f) as u8,
            e2 == (v2 & 0x7f) as u8,
            e3 == (v3 & 0x7f) as u8,
            e4 == (v4 & 0x7f) as u8,
    ;
    reveal_with_fuel(varint_bytes, 6);
    reveal_with_fuel(decode_from, 6);
    if v1 == 0 {
        assert(varint_bytes(v) == seq![e0]);
        assert(d[0] == e0);
        assert((0u32 | group_bits(e0, 0)) == v) by (bit_vector)
            requires
                e0 == (v & 0x7f) as u8,
                v >> 7u32 == 0,
        ;
    } else if v2 == 0 {
        assert(varint_bytes(v) == seq![c0, e1]);
        assert(d[0] == c0 && d[1] == e1);
        assert(((0u32 | group_bits(c0, 0)) | group_bits(e1, 1)) == v) by (bit_vector)
            requires
                c0 == ((v & 0x7f) | 0x80) as u8,
                e1 == (v1 & 0x7f) as u8,
                v1 == v >> 7u32,
                v1 >> 7u32 == 0,
        ;
    } else if v3 == 0 {
        assert(varint_bytes(v) == seq![c0, c1, e2]);
        assert(d[0] == c0 && d[1] == c1 && d[2] == e2);
        assert((((0u32 | group_bits(c0, 0)) | group_bits(c1, 1)) | group_bits(e2, 2)) == v)
            by (bit_vector)
            requires
                c0 == ((v & 0x7f) | 0x80) as u8,
                c1 == ((v1 & 0x7f) | 0x80) as u8,
                e2 == (v2 & 0x7f) as u8,
                v1 == v >> 7u32,
                v2 == v1 >> 7u32,
                v2 >> 7u32 == 0,
        ;
    } else if v4 == 0 {
        assert(varint_bytes(v) == seq![c0, c1, c2, e3]);
        assert(d[0] == c0 && d[1] == c1 && d[2] == c2 && d[3] == e3);
        assert(((((0u32 | group_bits(c0, 0)) | group_bits(c1, 1)) | group_bits(c2, 2))
            | group_bits(e3, 3)) == v) by (bit_vector)
            requires
                c0 == ((v & 0x7f) | 0x80) as u8,
                c1 == ((v1 & 0x7f) | 0x80) as u8,
                c2 == ((v2 & 0x7f) | 0x80) as u8,
                e3 == (v3 & 0x7f) as u8,
                v1 == v >> 7u32,
                v2 == v1 >> 7u32,
                v3 == v2 >> 7u32,
                v3 >> 7u32 == 0,
        ;
    } else {
        assert(varint_bytes(v) == seq![c0, c1, c2, c3, e4]);
        assert(d[0] == c0 && d[1] == c1 && d[2] == c2 && d[3] == c3 && d[4] == e4);
        assert((((((0u32 | group_bits(c0, 0)) | group_bits(c1, 1)) | group_bits(c2, 2))
            | group_bits(c3, 3)) | group_bits(e4, 4)) == v) by (bit_vector)
            requires
                c0 == ((v & 0x7f) | 0x80) as u8,
                c1 == ((v1 & 0x7f) | 0x80) as u8,
                c2 == ((v2 & 0x7f) | 0x80) as u8,
                c3 == ((v3 & 0x7f) | 0x80) as u8,
                e4 == (v4 & 0x7f) as u8,
                v1 == v >> 7u32,
                v2 == v1 >> 7u32,
                v3 == v2 >> 7u32,
                v4 == v3 >> 7u32,
                v4 >> 7u32 == 0,
        ;
    }
}

/// A varint whose first five bytes all carry the continuation bit is
/// refused, whatever follows.
pub proof fn lemma_five_continuations_refused(data: Seq<u8>)
    requires
        data.len() >= 5,
        forall|i: int| 0 <= i < 5 ==> #[trigger] data[i] & 0x80 != 0,
    ensures
        decode_spec(data) is None,
{
    reveal_with_fuel(decode_from, 6);
    assert(data[0] & 0x80 != 0);
    assert(data[1] & 0x80 != 0);
    assert(data[2] & 0x80 != 0);
    assert(data[3] & 0x80 != 0);
    assert(data[4] & 0x80 != 0);
}

} // verus!

verus! {

/// What feeding one more byte to a stream decoder yields.
pub enum ReadStep {
    /// The varint is complete; this is its value.
    Done(i32),
    /// More bytes follow; these are the bits gathered so far.
    More(u32),
    /// Five bytes were read and none ended the varint.
    TooLong,
}

/// One step of reading a VarInt from a byte stream: `acc` holds the bits of
/// the `index` bytes already read, `byte` is the next one.
pub fn read_step(acc: u32, index: usize, byte: u8) -> (res: ReadStep)
    requires
        index < MAX_BYTES,
    ensures
        match res {
            ReadStep::Done(v) => byte & 0x80 == 0 && v == (acc | group_bits(byte, index as u32)) as i32,
            ReadStep::More(a) => byte & 0x80 != 0 && index + 1 < MAX_BYTES && a == acc | group_bits(
                byte,
                index as u32,
            ),
            ReadStep::TooLong => byte & 0x80 != 0 && index + 1 == MAX_BYTES,
        },
{
    let acc2 = acc | (((byte & 0x7f) as u32) << (7 * index as u32));
    if byte & 0x80 == 0 {
        ReadStep::Done(acc2 as i32)
    } else if index + 1 < MAX_BYTES {
        ReadStep::More(acc2)
    } else {
        ReadStep::TooLong
    }
}

/// Reading a stream byte by byte with `read_step` agrees with `decode` on
/// the same bytes: each step either finishes with what `decode` returns,
/// continues exactly as `decode` does, or refuses where `decode` refuses.
pub proof fn lemma_read_step_agrees(data: Seq<u8>, i: nat, acc: u32)
    requires
        i < 5,
        i < data.len(),
    ensures
        ({
            let b = data[i as int];
            let acc2 = acc | group_bits(b, i as u32);
            &&& b & 0x80 == 0 ==> decode_from(data, i, acc) == Some((acc2, i + 1))
            &&& b & 0x80 != 0 && i + 1 < 5 ==> decode_from(data, i, acc) == decode_from(data, i + 1, acc2)
            &&& b & 0x80 != 0 && i + 1 == 5 ==> decode_from(data, i, acc) is None
        }),
{
    reveal_with_fuel(decode_from, 2);
}

} // verus!
