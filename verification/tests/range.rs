use zerotick::error::Error;
use zerotick::scanner::range::{cidr_size, ipv4_text, parse_cidr, parse_ipv4};

#[test]
fn parses_ipv4() {
    assert_eq!(parse_ipv4("192.168.1.10"), Some(0xC0A8010A));
    assert_eq!(parse_ipv4("0.0.0.0"), Some(0));
    assert_eq!(parse_ipv4("255.255.255.255"), Some(0xFFFF_FFFF));
    assert_eq!(parse_ipv4("01.2.3.4"), None);
    assert_eq!(parse_ipv4("256.1.1.1"), None);
    assert_eq!(parse_ipv4("1.2.3"), None);
    assert_eq!(parse_ipv4("1.2.3.4.5"), None);
    assert_eq!(parse_ipv4("+1.2.3.4"), None);
    assert_eq!(parse_ipv4("1.2.3.4 "), None);
}

#[test]
fn lists_the_block() {
    let mut addrs = parse_cidr("192.168.1.10/30").unwrap();
    assert_eq!(addrs.len(), 4);
    addrs.sort();
    assert_eq!(addrs, vec![0xC0A80108, 0xC0A80109, 0xC0A8010A, 0xC0A8010B]);
    assert_eq!(parse_cidr("10.1.2.3/32").unwrap(), vec![0x0A010203]);
    let mut big = parse_cidr("10.0.0.0/20").unwrap();
    assert_eq!(big.len(), 4096);
    big.sort();
    big.dedup();
    assert_eq!(big.len(), 4096);
    assert_eq!(big[0], 0x0A000000);
}

fn message(r: zerotick::error::Result<Vec<u32>>) -> String {
    match r {
        Err(Error::InvalidAddress(m)) => m,
        _ => panic!("expected an invalid address"),
    }
}

#[test]
fn reports_bad_ranges() {
    assert_eq!(message(parse_cidr("192.168.1.0")), "expected CIDR notation (e.g. 192.168.1.0/24)");
    assert_eq!(message(parse_cidr("x/24")), "invalid IP: x");
    assert_eq!(message(parse_cidr("1.2.3.4/x")), "invalid prefix: x");
    assert_eq!(message(parse_cidr("1.2.3.4/33")), "prefix too large: /33");
    assert_eq!(message(parse_cidr("1.2.3.4/7")), "range too large (max /8 = 16M addresses)");
}

#[test]
fn sizes_ranges() {
    assert_eq!(cidr_size("10.0.0.0/8"), Some(16_777_216));
    assert_eq!(cidr_size("anything/24"), Some(256));
    assert_eq!(cidr_size("1.2.3.4/32"), Some(1));
    assert_eq!(cidr_size("1.2.3.4"), None);
    assert_eq!(cidr_size("1.2.3.4/33"), None);
    assert_eq!(cidr_size("1.2.3.4/-1"), None);
}

#[test]
fn dotted_text_parses_back() {
    for v in [0u32, 1, 255, 256, 0x0A00_0001, 0xC0A8_010A, 0xFFFF_FFFF, 0x7F00_0001] {
        assert_eq!(parse_ipv4(&ipv4_text(v)), Some(v));
    }
}

#[test]
fn block_addresses_each_once() {
    let addrs = parse_cidr("172.16.5.77/29").unwrap();
    assert_eq!(addrs.len(), 8);
    for a in 0xAC100548u32..0xAC100550u32 {
        assert_eq!(addrs.iter().filter(|x| **x == a).count(), 1);
    }
    assert!(!addrs.contains(&0xAC100547));
    assert!(!addrs.contains(&0xAC100550));
}
