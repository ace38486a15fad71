use zerotick::error::Error;
use zerotick::protocol::legacy::{
    check_legacy_kick, decode_legacy_payload, decode_utf16_lossy, encode_utf16, legacy_request,
    parse_legacy_response, units_from_be,
};
use zerotick::types::Description;

#[test]
fn request_bytes_for_localhost() {
    let req = legacy_request("localhost", 25565);
    let mut expected: Vec<u8> = vec![0xFE, 0x01, 0xFA, 0x00, 0x0B];
    for c in "MC|PingHost".chars() {
        expected.push(0);
        expected.push(c as u8);
    }
    expected.extend_from_slice(&[0x00, 0x19, 0x4A, 0x00, 0x09]);
    for c in "localhost".chars() {
        expected.push(0);
        expected.push(c as u8);
    }
    expected.extend_from_slice(&[0x00, 0x00, 0x63, 0xDD]);
    assert_eq!(req, expected);
}

#[test]
fn kick_byte_checked() {
    assert!(check_legacy_kick(0xFF).is_ok());
    match check_legacy_kick(0x00) {
        Err(Error::Protocol(m)) => assert_eq!(m, "expected legacy kick (0xFF), got 0x00"),
        _ => panic!("expected a protocol error"),
    }
    match check_legacy_kick(0xAB) {
        Err(Error::Protocol(m)) => assert_eq!(m, "expected legacy kick (0xFF), got 0xAB"),
        _ => panic!("expected a protocol error"),
    }
}

#[test]
fn payload_decoding() {
    assert_eq!(decode_legacy_payload(&[0x00, 0xA7, 0x00, 0x31]), "\u{a7}1");
    assert_eq!(decode_legacy_payload(&[0xD8, 0x3D, 0xDE, 0x00]), "\u{1F600}");
    assert_eq!(decode_legacy_payload(&[0xD8, 0x00, 0x00, 0x41]), "\u{FFFD}A");
    assert_eq!(decode_legacy_payload(&[0xDC, 0x00]), "\u{FFFD}");
    assert_eq!(decode_legacy_payload(&[0x00, 0x41, 0x00]), "A");
}

#[test]
fn utf16_round_trip() {
    let text = "h\u{e9}llo \u{1F600}";
    let units = encode_utf16(text);
    assert_eq!(units, vec![0x68, 0xE9, 0x6C, 0x6C, 0x6F, 0x20, 0xD83D, 0xDE00]);
    assert_eq!(decode_utf16_lossy(&units), text);
    assert_eq!(units_from_be(&[0x12, 0x34, 0xAB, 0xCD]), vec![0x1234, 0xABCD]);
}

#[test]
fn parses_modern_legacy_reply() {
    let s = "\u{a7}1\u{0}127\u{0}1.6.4\u{0}A Minecraft Server\u{0}3\u{0}20";
    let st = parse_legacy_response(s).unwrap();
    assert_eq!(st.version.name, "1.6.4");
    assert_eq!(st.version.protocol, 127);
    assert_eq!(st.players.online, 3);
    assert_eq!(st.players.max, 20);
    assert!(st.players.sample.is_empty());
    assert!(matches!(st.description, Description::Plain(ref m) if m == "A Minecraft Server"));
    assert!(st.favicon.is_none());
}

#[test]
fn unparsable_numbers_count_as_zero() {
    let s = "\u{a7}1\u{0}x\u{0}1.6\u{0}motd\u{0}-\u{0}20\u{0}extra";
    let st = parse_legacy_response(s).unwrap();
    assert_eq!(st.version.protocol, 0);
    assert_eq!(st.players.online, 0);
    assert_eq!(st.players.max, 0);
}

#[test]
fn parses_old_legacy_reply() {
    let st = parse_legacy_response("A \u{a7}cServer\u{a7}5\u{a7}10").unwrap();
    assert_eq!(st.version.name, "\u{2264}1.3");
    assert_eq!(st.version.protocol, 0);
    assert_eq!(st.players.online, 5);
    assert_eq!(st.players.max, 10);
    assert!(matches!(st.description, Description::Plain(ref m) if m == "A \u{a7}cServer"));
}

#[test]
fn incomplete_replies_refused() {
    match parse_legacy_response("\u{a7}1\u{0}a\u{0}b") {
        Err(Error::Protocol(m)) => assert_eq!(m, "incomplete legacy response"),
        _ => panic!("expected an error"),
    }
    match parse_legacy_response("hello") {
        Err(Error::Protocol(m)) => assert_eq!(m, "incomplete old legacy response"),
        _ => panic!("expected an error"),
    }
}

#[test]
fn host_bytes_read_back() {
    let host = "m\u{e9}n\u{1F600}.example";
    let req = legacy_request(host, 1);
    // The host's UTF-16BE bytes sit after the 5 + 22 + 2 + 1 + 2 header bytes.
    let units = encode_utf16(host);
    let start = 5 + 22 + 2 + 1 + 2;
    let host_bytes = &req[start..start + units.len() * 2];
    assert_eq!(decode_legacy_payload(host_bytes), host);
}
