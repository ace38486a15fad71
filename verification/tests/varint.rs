use zerotick::error::Error;
use zerotick::protocol::varint::{decode, encode, read_step, size, ReadStep};

#[test]
fn round_trip() {
    let values = [0, 1, 127, 128, 255, 25565, 2097151, -1, i32::MAX, i32::MIN];
    for &v in &values {
        let mut buf = Vec::new();
        encode(&mut buf, v);
        assert_eq!(buf.len(), size(v));
        let (decoded, consumed) = decode(&buf).unwrap();
        assert_eq!(decoded, v);
        assert_eq!(consumed, buf.len());
    }
}

#[test]
fn too_long() {
    let data = [0x80, 0x80, 0x80, 0x80, 0x80, 0x80]; // 6 continuation bytes
    assert!(decode(&data).is_err());
}

#[test]
fn encodes_known_bytes() {
    let mut buf = Vec::new();
    encode(&mut buf, 25565);
    assert_eq!(buf, vec![0xDD, 0xC7, 0x01]);
    let mut neg = Vec::new();
    encode(&mut neg, -1);
    assert_eq!(neg, vec![0xFF, 0xFF, 0xFF, 0xFF, 0x0F]);
    assert_eq!(size(0), 1);
    assert_eq!(size(128), 2);
    assert_eq!(size(-1), 5);
}

#[test]
fn decode_reads_only_the_varint() {
    let data = [0xAC, 0x02, 0xFF, 0x00];
    let (v, n) = decode(&data).unwrap();
    assert_eq!(v, 300);
    assert_eq!(n, 2);
}

#[test]
fn decode_refuses_five_continuations() {
    let data = [0x80, 0x80, 0x80, 0x80, 0x80];
    assert!(matches!(decode(&data), Err(Error::VarIntTooLong)));
    let empty: [u8; 0] = [];
    assert!(matches!(decode(&empty), Err(Error::VarIntTooLong)));
}

#[test]
fn read_step_follows_decode() {
    // 300 = AC 02
    let first = read_step(0, 0, 0xAC);
    let acc = match first {
        ReadStep::More(a) => a,
        _ => panic!("expected more bytes"),
    };
    assert_eq!(acc, 0x2C);
    assert!(matches!(read_step(acc, 1, 0x02), ReadStep::Done(300)));
    assert!(matches!(read_step(0, 4, 0x80), ReadStep::TooLong));
}

#[test]
fn encodings_have_the_varint_shape() {
    for value in [0, 1, 127, 128, 255, 25565, 2097151, 2097152, i32::MAX, -1, i32::MIN] {
        let mut b = Vec::new();
        encode(&mut b, value);
        assert_eq!(b.len(), size(value));
        for x in &b[..b.len() - 1] {
            assert_ne!(x & 0x80, 0);
        }
        let last = b[b.len() - 1];
        assert_eq!(last & 0x80, 0);
        assert!(last != 0 || b == vec![0]);
    }
}
