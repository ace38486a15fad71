use crate::config::MAX_PACKET_SIZE;
use crate::error::{Error, Result};
use crate::protocol::varint::{self, decode_spec, varint_bytes};
use crate::text::{append_bytes, str_from_utf8, utf8_error_message};
use vstd::prelude::*;
use vstd::slice::slice_subrange;
use vstd::string::StringSliceAdditionalSpecFns;
use vstd::utf8::{decode_utf8, valid_utf8};

verus! {

// ── Packet ───────────────────────────────────────────

/// Big-endian bytes of a 16-bit value.
pub open spec fn be_u16(v: u16) -> Seq<u8> {
    seq![(v >> 8u16) as u8, (v & 0xff) as u8]
}

/// Byte `k` (0 is the most significant) of the big-endian form of `v`.
pub open spec fn be_byte(v: u64, k: int) -> u8 {
    ((v >> (8 * (7 - k)) as u64) & 0xff) as u8
}

/// Big-endian bytes of a 64-bit value.
pub open spec fn be_u64(v: u64) -> Seq<u8> {
    Seq::new(8, |k: int| be_byte(v, k))
}

/// The 64-bit value whose big-endian bytes are the first eight of `b`.
pub open spec fn from_be_u64(b: Seq<u8>) -> u64 {
    ((b[0] as u64) << 56u64) | ((b[1] as u64) << 48u64) | ((b[2] as u64) << 40u64) | ((b[3] as u64)
        << 32u64) | ((b[4] as u64) << 24u64) | ((b[5] as u64) << 16u64) | ((b[6] as u64) << 8u64)
        | (b[7] as u64)
}

/// The bytes of a packet's frame: its id as a varint, then its payload.
pub open spec fn frame_bytes(id: i32, payload: Seq<u8>) -> Seq<u8> {
    varint_bytes(id as u32) + payload
}

/// The bytes of a packet on the wire: the frame's length as a varint, then the frame.
pub open spec fn wire_bytes(id: i32, payload: Seq<u8>) -> Seq<u8> {
    let frame = frame_bytes(id, payload);
    varint_bytes((frame.len() as i32) as u32) + frame
}

/// Whether `res` is what reading a length-prefixed UTF-8 string from the
/// start of `unread` gives: the varint length, then that many bytes, which
/// must be there and be valid UTF-8.
pub open spec fn string_read<'a>(unread: Seq<u8>, res: Result<&'a str>) -> bool {
    match decode_spec(unread) {
        None => res matches Err(Error::VarIntTooLong),
        Some((v, n)) => {
            let len = ((v as i32) as usize) as int;
            let after = unread.skip(n as int);
            let bytes = after.take(len);
            if len > after.len() {
                res matches Err(Error::Protocol(m)) && m@ == "string extends beyond packet"@
            } else if valid_utf8(bytes) {
                res matches Ok(s) && s@ == decode_utf8(bytes) && s.spec_bytes() == bytes
            } else {
                res matches Err(Error::Protocol(m)) && m@ == utf8_error_message(bytes)
            }
        },
    }
}

/// A Minecraft protocol packet (ID + payload).
#[derive(Debug, Clone)]
pub struct Packet {
    pub id: i32,
    pub payload: Vec<u8>,
}

impl Packet {
    pub fn new(id: i32) -> (res: Self)
        ensures
            res.id == id,
            res.payload@ == Seq::<u8>::empty(),
    {
        Packet { id, payload: Vec::new() }
    }

    // ── Builder methods (fluent) ─────────────────────
    pub fn write_varint(&mut self, value: i32) -> (res: &mut Self)
        ensures
            res.id == old(self).id,
            res.payload@ == old(self).payload@ + varint_bytes(value as u32),
            *final(self) == *final(res),
    {
        varint::encode(&mut self.payload, value);
        self
    }

    pub fn write_string(&mut self, s: &str) -> (res: &mut Self)
        ensures
            res.id == old(self).id,
            res.payload@ == old(self).payload@ + varint_bytes((s.len() as i32) as u32)
                + s.spec_bytes(),
            *final(self) == *final(res),
    {
        varint::encode(&mut self.payload, s.len() as i32);
        append_bytes(&mut self.payload, s.as_bytes());
        self
    }

    pub fn write_u16(&mut self, value: u16) -> (res: &mut Self)
        ensures
            res.id == old(self).id,
            res.payload@ == old(self).payload@ + be_u16(value),
            *final(self) == *final(res),
    {
        self.payload.push((value >> 8) as u8);
        self.payload.push((value & 0xff) as u8);
        self
    }

    pub fn write_i64(&mut self, value: i64) -> (res: &mut Self)
        ensures
            res.id == old(self).id,
            res.payload@ == old(self).payload@ + be_u64(value as u64),
            *final(self) == *final(res),
    {
        let v = value as u64;
        let ghost start = self.payload@;
        let mut k: usize = 0;
        while k < 8
            invariant
                k <= 8,
                self.id == old(self).id,
                self.payload@ == start + be_u64(v).take(k as int),
            decreases 8 - k,
        {
            let shift: u64 = 8 * (7 - k as u64);
            self.payload.push(((v >> shift) & 0xff) as u8);
            assert(be_u64(v).take(k + 1) == be_u64(v).take(k as int).push(be_byte(v, k as int)));
            k += 1;
        }
        assert(be_u64(v).take(8) == be_u64(v));
        self
    }

    /// Append raw bytes to the payload.
    pub fn write_bytes(&mut self, data: &[u8]) -> (res: &mut Self)
        ensures
            res.id == old(self).id,
            res.payload@ == old(self).payload@ + data@,
            *final(self) == *final(res),
    {
        append_bytes(&mut self.payload, data);
        self
    }

    // ── Wire format ──────────────────────────────────
    /// Encode into a length-prefixed byte buffer ready for the wire.
    pub fn encode(&self) -> (res: Vec<u8>)
        requires
            self.payload.len() + 5 <= usize::MAX,
        ensures
            res@ == wire_bytes(self.id, self.payload@),
    {
        let id_len = varint::size(self.id);
        let data_len = id_len + self.payload.len();
        let mut buf: Vec<u8> = Vec::new();
        varint::encode(&mut buf, data_len as i32);
        varint::encode(&mut buf, self.id);
        append_bytes(&mut buf, self.payload.as_slice());
        buf
    }

    /// The packet whose frame (id then payload, without the length prefix)
    /// is `data`.
    pub fn from_frame(data: &[u8]) -> (res: Result<Packet>)
        ensures
            match decode_spec(data@) {
                Some((id, n)) => res matches Ok(p) && p.id == id as i32 && p.payload@ == data@.skip(
                    n as int,
                ),
                None => res matches Err(Error::VarIntTooLong),
            },
    {
        let (id, consumed) = varint::decode(data)?;
        proof {
            lemma_decode_len(data@);
        }
        let payload = vstd::slice::slice_to_vec(slice_subrange(data, consumed, data.len()));
        Ok(Packet { id, payload })
    }

    /// Create a reader for parsing fields from this packet's payload.
    pub fn reader(&self) -> (res: PacketReader<'_>)
        ensures
            res.bytes() == self.payload@,
            res.position() == 0,
    {
        PacketReader::new(self.payload.as_slice())
    }
}

/// A decoded varint never claims more bytes than were given.
pub proof fn lemma_decode_len(data: Seq<u8>)
    ensures
        decode_spec(data) matches Some((v, n)) ==> 1 <= n <= data.len() && n <= 5,
{
    reveal_with_fuel(varint::decode_from, 6);
}

/// Check the length prefix of an incoming packet: the frame length to read
/// next, or why the packet is refused.
pub fn frame_length(length: i32) -> (res: Result<usize>)
    ensures
        (length as usize) == 0 ==> (res matches Err(Error::Protocol(m)) && m@ == "empty packet"@),
        (length as usize) > MAX_PACKET_SIZE ==> (res matches Err(Error::PacketTooLarge(n)) && n == (
        length as usize)),
        0 < (length as usize) <= MAX_PACKET_SIZE ==> res == Ok::<usize, Error>(length as usize),
{
    let len = length as usize;
    if len == 0 {
        return Err(Error::protocol("empty packet".to_owned()));
    }
    if len > MAX_PACKET_SIZE {
        return Err(Error::PacketTooLarge(len));
    }
    Ok(len)
}

// ── Payload Reader ───────────────────────────────────

/// Zero-copy reader for extracting typed fields from a packet payload.
pub struct PacketReader<'a> {
    data: &'a [u8],
    pos: usize,
}

impl<'a> PacketReader<'a> {
    #[verifier::type_invariant]
    spec fn inv(self) -> bool {
        self.pos <= self.data@.len()
    }

    /// The bytes being read.
    pub closed spec fn bytes(self) -> Seq<u8> {
        self.data@
    }

    /// How many bytes have been read so far.
    pub closed spec fn position(self) -> nat {
        self.pos as nat
    }

    /// The bytes not read yet.
    pub open spec fn unread(self) -> Seq<u8> {
        self.bytes().skip(self.position() as int)
    }

    pub fn new(data: &'a [u8]) -> (res: Self)
        ensures
            res.bytes() == data@,
            res.position() == 0,
            res.position() <= res.bytes().len(),
    {
        PacketReader { data, pos: 0 }
    }

    pub fn read_varint(&mut self) -> (res: Result<i32>)
        ensures
            final(self).position() <= final(self).bytes().len(),
            final(self).bytes() == old(self).bytes(),
            match decode_spec(old(self).unread()) {
                Some((v, n)) => res == Ok::<i32, Error>(v as i32) && final(self).position() == old(
                    self,
                ).position() + n,
                None => res matches Err(Error::VarIntTooLong) && final(self).position() == old(
                    self,
                ).position(),
            },
    {
        proof {
            use_type_invariant(&*self);
        }
        let rest = slice_subrange(self.data, self.pos, self.data.len());
        let (value, consumed) = varint::decode(rest)?;
        proof {
            lemma_decode_len(rest@);
        }
        self.pos = self.pos + consumed;
        Ok(value)
    }

    pub fn read_string(&mut self) -> (res: Result<&'a str>)
        ensures
            final(self).position() <= final(self).bytes().len(),
            final(self).bytes() == old(self).bytes(),
            string_read(old(self).unread(), res),
            match decode_spec(old(self).unread()) {
                None => res matches Err(Error::VarIntTooLong) && final(self).position() == old(
                    self,
                ).position(),
                Some((v, n)) => {
                    let len = ((v as i32) as usize) as int;
                    let after = old(self).unread().skip(n as int);
                    let bytes = after.take(len);
                    if len > after.len() {
                        res matches Err(Error::Protocol(m)) && m@ == "string extends beyond packet"@
                            && final(self).position() == old(self).position() + n
                    } else if valid_utf8(bytes) {
                        res matches Ok(s) && s@ == decode_utf8(bytes) && s.spec_bytes() == bytes
                            && final(self).position() == old(self).position() + n + len
                    } else {
                        res matches Err(Error::Protocol(m)) && m@ == utf8_error_message(bytes)
                            && final(self).position() == old(self).position() + n
                    }
                },
            },
    {
        let ghost old_unread = old(self).unread();
        let v = self.read_varint()?;
        let len = v as usize;
        proof {
            use_type_invariant(&*self);
            assert(self.unread() =~= old_unread.skip(decode_spec(old_unread).unwrap().1 as int));
        }
        if len > self.data.len() - self.pos {
            return Err(Error::protocol("string extends beyond packet".to_owned()));
        }
        let bytes = slice_subrange(self.data, self.pos, self.pos + len);
        assert(bytes@ =~= self.unread().take(len as int));
        let s = match str_from_utf8(bytes) {
            Ok(s) => s,
            Err(msg) => {
                return Err(Error::protocol(msg));
            },
        };
        proof {
            vstd::utf8::decode_utf8_encode_utf8(bytes@);
        }
        self.pos = self.pos + len;
        Ok(s)
    }

    /// Read a signed 64-bit integer.
    pub fn read_i64(&mut self) -> (res: Result<i64>)
        ensures
            final(self).position() <= final(self).bytes().len(),
            final(self).bytes() == old(self).bytes(),
            old(self).unread().len() < 8 ==> (res matches Err(Error::Protocol(m)) && m@
                == "not enough data for i64"@ && final(self).position() == old(self).position()),
            old(self).unread().len() >= 8 ==> res == Ok::<i64, Error>(
                from_be_u64(old(self).unread()) as i64,
            ) && final(self).position() == old(self).position() + 8,
    {
        proof {
            use_type_invariant(&*self);
        }
        if self.data.len() - self.pos < 8 {
            return Err(Error::protocol("not enough data for i64".to_owned()));
        }
        let p = self.pos;
        let d = self.data;
        let v: u64 = ((d[p] as u64) << 56) | ((d[p + 1] as u64) << 48) | ((d[p + 2] as u64) << 40)
            | ((d[p + 3] as u64) << 32) | ((d[p + 4] as u64) << 24) | ((d[p + 5] as u64) << 16) | ((
        d[p + 6] as u64) << 8) | (d[p + 7] as u64);
        self.pos = p + 8;
        Ok(v as i64)
    }

    /// Return the remaining unread bytes.
    pub fn remaining(&self) -> (res: &'a [u8])
        ensures
            res@ == self.unread(),
    {
        proof {
            use_type_invariant(self);
        }
        slice_subrange(self.data, self.pos, self.data.len())
    }
}

// ── Laws ─────────────────────────────────────────────

/// Reading back the big-endian bytes of a 64-bit value gives the value.
pub proof fn lemma_i64_roundtrip(value: i64)
    ensures
        from_be_u64(be_u64(value as u64)) as i64 == value,
{
    let v = value as u64;
    let b = be_u64(v);
    assert(b[0] == ((v >> 56u64) & 0xff) as u8);
    assert(b[1] == ((v >> 48u64) & 0xff) as u8);
    assert(b[2] == ((v >> 40u64) & 0xff) as u8);
    assert(b[3] == ((v >> 32u64) & 0xff) as u8);
    assert(b[4] == ((v >> 24u64) & 0xff) as u8);
    assert(b[5] == ((v >> 16u64) & 0xff) as u8);
    assert(b[6] == ((v >> 8u64) & 0xff) as u8);
    assert(b[7] == ((v >> 0u64) & 0xff) as u8);
    let (b0, b1, b2, b3, b4, b5, b6, b7) = (b[0], b[1], b[2], b[3], b[4], b[5], b[6], b[7]);
    assert(((b0 as u64) << 56u64) | ((b1 as u64) << 48u64) | ((b2 as u64) << 40u64) | ((b3 as u64)
        << 32u64) | ((b4 as u64) << 24u64) | ((b5 as u64) << 16u64) | ((b6 as u64) << 8u64) | (b7 as u64)
        == v) by (bit_vector)
        requires
            b0 == ((v >> 56u64) & 0xff) as u8,
            b1 == ((v >> 48u64) & 0xff) as u8,
            b2 == ((v >> 40u64) & 0xff) as u8,
            b3 == ((v >> 32u64) & 0xff) as u8,
            b4 == ((v >> 24u64) & 0xff) as u8,
            b5 == ((v >> 16u64) & 0xff) as u8,
            b6 == ((v >> 8u64) & 0xff) as u8,
            b7 == ((v >> 0u64) & 0xff) as u8,
    ;
    assert((v as i64) == value) by (bit_vector)
        requires
            v == value as u64,
    ;
}

/// A packet sent with `encode` is received whole: the length prefix decodes
/// to the frame's length, which `frame_length` accepts, and the frame decodes
/// to the same id and payload.
pub proof fn lemma_wire_roundtrip(id: i32, payload: Seq<u8>)
    requires
        varint_bytes(id as u32).len() + payload.len() <= MAX_PACKET_SIZE,
    ensures
        ({
            let frame = frame_bytes(id, payload);
            let prefix = varint_bytes((frame.len() as i32) as u32);
            &&& wire_bytes(id, payload) == prefix + frame
            &&& decode_spec(wire_bytes(id, payload)) == Some(
                ((frame.len() as i32) as u32, prefix.len()),
            )
            &&& (((frame.len() as i32) as u32) as i32) as usize == frame.len()
            &&& 0 < frame.len() <= MAX_PACKET_SIZE
            &&& decode_spec(frame) == Some((id as u32, varint_bytes(id as u32).len()))
            &&& frame.skip(varint_bytes(id as u32).len() as int) == payload
            &&& (id as u32) as i32 == id
        }),
{
    let frame = frame_bytes(id, payload);
    let n = frame.len() as i32;
    varint::lemma_varint_len_bound(id as u32);
    varint::lemma_varint_roundtrip(n, frame);
    varint::lemma_varint_roundtrip(id, payload);
    assert(frame.skip(varint_bytes(id as u32).len() as int) =~= payload);
}

/// A string written with `write_string` is read back by `read_string`: the
/// length prefix decodes to the byte length, and those bytes are valid UTF-8
/// that decodes to the same characters.
pub proof fn lemma_string_roundtrip(s: Seq<char>, rest: Seq<u8>)
    requires
        vstd::utf8::encode_utf8(s).len() <= i32::MAX,
    ensures
        ({
            let bytes = vstd::utf8::encode_utf8(s);
            let len = bytes.len() as i32;
            let prefix = varint_bytes(len as u32);
            let data = prefix + bytes + rest;
            &&& decode_spec(data) == Some((len as u32, prefix.len()))
            &&& (((len as u32) as i32) as usize) as int == bytes.len()
            &&& data.skip(prefix.len() as int).take(bytes.len() as int) == bytes
            &&& valid_utf8(bytes)
            &&& decode_utf8(bytes) == s
        }),
{
    let bytes = vstd::utf8::encode_utf8(s);
    let len = bytes.len() as i32;
    let prefix = varint_bytes(len as u32);
    varint::lemma_varint_roundtrip(len, bytes + rest);
    assert(prefix + bytes + rest == prefix + (bytes + rest));
    assert((prefix + bytes + rest).skip(prefix.len() as int).take(bytes.len() as int) =~= bytes);
    vstd::utf8::encode_utf8_valid_utf8(s);
    vstd::utf8::encode_utf8_decode_utf8(s);
}

} // verus!
