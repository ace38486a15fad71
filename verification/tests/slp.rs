use zerotick::error::Error;
use zerotick::protocol::packet::Packet;
use zerotick::protocol::slp::{handshake_packet, ping_packet, status_json, status_request_packet};

#[test]
fn handshake_payload() {
    let p = handshake_packet("localhost", 25565);
    assert_eq!(p.id, 0);
    let mut expected = vec![0x81, 0x06, 0x09];
    expected.extend_from_slice(b"localhost");
    expected.extend_from_slice(&[0x63, 0xDD, 0x01]);
    assert_eq!(p.payload, expected);
}

#[test]
fn request_and_ping_packets() {
    let r = status_request_packet();
    assert_eq!(r.id, 0);
    assert!(r.payload.is_empty());
    let p = ping_packet(258);
    assert_eq!(p.id, 1);
    assert_eq!(p.payload, vec![0, 0, 0, 0, 0, 0, 1, 2]);
}

#[test]
fn status_json_reads_string() {
    let mut p = Packet::new(0);
    p.write_string("{\"a\":1}");
    assert_eq!(status_json(&p).unwrap(), "{\"a\":1}");
}

#[test]
fn status_json_checks_id() {
    let p = Packet::new(1);
    match status_json(&p) {
        Err(Error::Protocol(m)) => assert_eq!(m, "expected status response (0x00), got 0x01"),
        _ => panic!("expected a protocol error"),
    }
    let q = Packet::new(0x1FF);
    match status_json(&q) {
        Err(Error::Protocol(m)) => assert_eq!(m, "expected status response (0x00), got 0x1FF"),
        _ => panic!("expected a protocol error"),
    }
    let n = Packet::new(-1);
    match status_json(&n) {
        Err(Error::Protocol(m)) => {
            assert_eq!(m, "expected status response (0x00), got 0xFFFFFFFF")
        },
        _ => panic!("expected a protocol error"),
    }
}
