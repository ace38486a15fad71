use crate::config::PROTOCOL_VERSION;
use crate::error::{Error, Result};
use crate::protocol::packet::{be_u16, be_u64, string_read, Packet};
use crate::protocol::varint::varint_bytes;
use crate::text::{hex_upper_min2, push_hex_upper_min2, push_str, string_of};
use vstd::prelude::*;
use vstd::string::StringSliceAdditionalSpecFns;

verus! {

/// The handshake of a status request: packet 0, carrying the protocol
/// version, the host as a string, the port, and next state 1 (status).
pub fn handshake_packet(host: &str, port: u16) -> (res: Packet)
    ensures
        res.id == 0,
        res.payload@ == varint_bytes(PROTOCOL_VERSION as u32) + varint_bytes(
            (host.len() as i32) as u32,
        ) + host.spec_bytes() + be_u16(port) + varint_bytes(1),
{
    let mut p = Packet::new(0x00);
    p.write_varint(PROTOCOL_VERSION);
    p.write_string(host);
    p.write_u16(port);
    p.write_varint(1);
    p
}

/// The status request: packet 0 with nothing in it.
pub fn status_request_packet() -> (res: Packet)
    ensures
        res.id == 0,
        res.payload@.len() == 0,
{
    Packet::new(0x00)
}

/// The ping: packet 1 carrying `payload` as a big-endian 64-bit number.
pub fn ping_packet(payload: i64) -> (res: Packet)
    ensures
        res.id == 1,
        res.payload@ == be_u64(payload as u64),
{
    let mut p = Packet::new(0x01);
    p.write_i64(payload);
    p
}

/// The message for a reply that is not the status response.
pub open spec fn unexpected_response_message(id: i32) -> Seq<char> {
    "expected status response (0x00), got 0x"@ + hex_upper_min2((id as u32) as nat)
}

/// The JSON text of a status response: the packet must have id 0, and its
/// payload starts with the JSON as a string.
pub fn status_json(response: &Packet) -> (res: Result<&str>)
    ensures
        response.id != 0 ==> (res matches Err(Error::Protocol(m)) && m@
            == unexpected_response_message(response.id)),
        response.id == 0 ==> string_read(response.payload@, res),
{
    if response.id != 0x00 {
        let mut msg: Vec<char> = Vec::new();
        push_str(&mut msg, "expected status response (0x00), got 0x");
        push_hex_upper_min2(&mut msg, response.id as u32);
        return Err(Error::protocol(string_of(&msg)));
    }
    let mut reader = response.reader();
    assert(reader.unread() =~= response.payload@);
    reader.read_string()
}

} // verus!
