use zerotick::error::Error;
use zerotick::protocol::packet::{frame_length, Packet, PacketReader};

#[test]
fn encode_prefixes_length_and_id() {
    let mut p = Packet::new(0x00);
    p.write_varint(769).write_string("hi").write_u16(25565);
    let bytes = p.encode();
    assert_eq!(bytes, vec![8, 0x00, 0x81, 0x06, 0x02, b'h', b'i', 0x63, 0xDD]);
}

#[test]
fn frame_round_trip() {
    let mut p = Packet::new(0x01);
    p.write_i64(-2).write_bytes(&[9, 8]);
    let wire = p.encode();
    let frame = &wire[1..];
    let back = Packet::from_frame(frame).unwrap();
    assert_eq!(back.id, 1);
    assert_eq!(back.payload, p.payload);
    let mut r = back.reader();
    assert_eq!(r.read_i64().unwrap(), -2);
    assert_eq!(r.remaining(), &[9u8, 8][..]);
}

#[test]
fn reader_reads_fields_in_order() {
    let data = [0x05, b'h', b'e', b'l', b'l', b'o', 0x2A];
    let mut r = PacketReader::new(&data);
    assert_eq!(r.read_string().unwrap(), "hello");
    assert_eq!(r.read_varint().unwrap(), 42);
    assert!(r.remaining().is_empty());
}

#[test]
fn reader_errors() {
    let short = [0x05, b'h'];
    let mut r = PacketReader::new(&short);
    match r.read_string() {
        Err(Error::Protocol(m)) => assert_eq!(m, "string extends beyond packet"),
        _ => panic!("expected a protocol error"),
    }
    let bad = [0x02, 0xC3, 0x28];
    let mut r2 = PacketReader::new(&bad);
    assert!(matches!(r2.read_string(), Err(Error::Protocol(_))));
    let few = [1u8, 2, 3];
    let mut r3 = PacketReader::new(&few);
    match r3.read_i64() {
        Err(Error::Protocol(m)) => assert_eq!(m, "not enough data for i64"),
        _ => panic!("expected a protocol error"),
    }
}

#[test]
fn frame_length_limits() {
    assert_eq!(frame_length(10).unwrap(), 10);
    match frame_length(0) {
        Err(Error::Protocol(m)) => assert_eq!(m, "empty packet"),
        _ => panic!("expected empty packet"),
    }
    assert!(matches!(frame_length(2097153), Err(Error::PacketTooLarge(2097153))));
    assert_eq!(frame_length(2097152).unwrap(), 2097152);
}
