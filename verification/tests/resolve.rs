use zerotick::error::Error;
use zerotick::net::resolve::{
    build_srv_query, default_address, parse_srv_response, read_dns_name, resolve_plan,
    skip_dns_name, split_host_port, ResolvePlan,
};

fn pair(a: &str, b: &str) -> Option<(String, String)> {
    Some((a.to_string(), b.to_string()))
}

#[test]
fn splits_host_and_port() {
    assert_eq!(split_host_port("example.com:25566"), pair("example.com", "25566"));
    assert_eq!(split_host_port("[::1]:25565"), pair("::1", "25565"));
    assert_eq!(split_host_port("[::1]"), None);
    assert_eq!(split_host_port("[::1"), None);
    assert_eq!(split_host_port("::1"), None);
    assert_eq!(split_host_port("example.com"), None);
    assert_eq!(split_host_port("host:"), pair("host", ""));
}

#[test]
fn plans_resolution() {
    match resolve_plan("  mc.example.com:1234 \n") {
        Ok(ResolvePlan::Fixed(a)) => {
            assert_eq!(a.host, "mc.example.com");
            assert_eq!(a.port, 1234);
            assert!(!a.srv);
        },
        _ => panic!("expected a fixed address"),
    }
    match resolve_plan("mc.example.com:99999") {
        Err(Error::InvalidAddress(m)) => assert_eq!(m, "invalid port: 99999"),
        _ => panic!("expected an invalid port"),
    }
    match resolve_plan("\u{a0}mc.example.com") {
        Ok(ResolvePlan::Lookup(h)) => assert_eq!(h, "mc.example.com"),
        _ => panic!("expected a lookup"),
    }
    let d = default_address("10.0.0.1".to_string());
    assert_eq!(d.host, "10.0.0.1");
    assert_eq!(d.port, 25565);
    assert!(!d.srv);
}

fn query_for_example() -> Vec<u8> {
    let mut q = vec![0xAB, 0xCD, 0x01, 0x00, 0x00, 0x01, 0, 0, 0, 0, 0, 0];
    q.push(10);
    q.extend_from_slice(b"_minecraft");
    q.push(4);
    q.extend_from_slice(b"_tcp");
    q.push(7);
    q.extend_from_slice(b"example");
    q.push(3);
    q.extend_from_slice(b"com");
    q.push(0);
    q.extend_from_slice(&[0x00, 0x21, 0x00, 0x01]);
    q
}

#[test]
fn builds_srv_query() {
    assert_eq!(build_srv_query("example.com"), Some(query_for_example()));
    assert_eq!(build_srv_query("bad..name"), None);
    assert_eq!(build_srv_query(""), None);
    let long = "a".repeat(64);
    assert_eq!(build_srv_query(&long), None);
    assert!(build_srv_query(&"a".repeat(63)).is_some());
}

fn answer(target: &[u8]) -> Vec<u8> {
    let mut r = query_for_example();
    r[2] = 0x81;
    r[3] = 0x80;
    r[7] = 1; // one answer
    r.extend_from_slice(&[0xC0, 0x0C, 0x00, 0x21, 0x00, 0x01, 0x00, 0x00, 0x00, 0x3C]);
    let rdlength = (6 + target.len()) as u16;
    r.extend_from_slice(&rdlength.to_be_bytes());
    r.extend_from_slice(&[0x00, 0x00, 0x00, 0x05, 0x63, 0xDE]);
    r.extend_from_slice(target);
    r
}

#[test]
fn parses_srv_answer() {
    let mut target = vec![2];
    target.extend_from_slice(b"mc");
    target.push(7);
    target.extend_from_slice(b"example");
    target.push(3);
    target.extend_from_slice(b"com");
    target.push(0);
    let data = answer(&target);
    let a = parse_srv_response(&data).unwrap();
    assert_eq!(a.host, "mc.example.com");
    assert_eq!(a.port, 25566);
    assert!(a.srv);
}

#[test]
fn follows_name_pointers() {
    // "mc" then a pointer to "example.com" inside the question (offset 28).
    let target = vec![2, b'm', b'c', 0xC0, 28];
    let data = answer(&target);
    let a = parse_srv_response(&data).unwrap();
    assert_eq!(a.host, "mc.example.com");
    assert_eq!(read_dns_name(&data, 28), Some("example.com".to_string()));
    assert_eq!(skip_dns_name(&data, 12), Some(12 + 1 + 10 + 1 + 4 + 1 + 7 + 1 + 3 + 1));
}

#[test]
fn refuses_bad_answers() {
    assert!(parse_srv_response(&[0u8; 11]).is_none());
    let mut no_answers = answer(&[0]);
    no_answers[7] = 0;
    assert!(parse_srv_response(&no_answers).is_none());
    // Target name is only the root: empty after trimming.
    assert!(parse_srv_response(&answer(&[0])).is_none());
    // A pointer loop is cut off.
    let looping = vec![0xC0, 0x00];
    assert_eq!(read_dns_name(&looping, 0), None);
    // A label running past the data.
    assert_eq!(read_dns_name(&[5, b'a'], 0), None);
}

#[test]
fn host_and_port_split_back() {
    for (h, p) in [("mc.example.com", "25565"), ("", "1"), ("10.0.0.1", ""), ("a]b", "x")] {
        let joined = format!("{h}:{p}");
        assert_eq!(split_host_port(&joined), pair(h, p));
    }
}

#[test]
fn query_question_is_skipped() {
    for domain in ["example.com", "a.b.c.d", "x"] {
        let q = build_srv_query(domain).unwrap();
        assert_eq!(skip_dns_name(&q, 12), Some(q.len() - 4));
    }
}

#[test]
fn srv_target_loses_trailing_dots() {
    // A target label that is itself a dot: the name reads "mc..", trimmed to "mc".
    let target = vec![2, b'm', b'c', 1, b'.', 0];
    let a = parse_srv_response(&answer(&target)).unwrap();
    assert_eq!(a.host, "mc");
    assert!(!a.host.ends_with('.'));
    // The answer is not of type SRV.
    let mut wrong_type = answer(&[2, b'm', b'c', 0]);
    let at = wrong_type.len() - 4 - 6 - 2 - 10;
    wrong_type[at + 3] = 0x01;
    assert!(parse_srv_response(&wrong_type).is_none());
    // Fewer than 7 bytes of record data.
    let mut short = answer(&[2, b'm', b'c', 0]);
    short[at + 11] = 6;
    assert!(parse_srv_response(&short).is_none());
    // Record data that runs past the end.
    let mut long = answer(&[2, b'm', b'c', 0]);
    long[at + 11] = 40;
    assert!(parse_srv_response(&long).is_none());
}

#[test]
fn query_name_reads_back() {
    let q = build_srv_query("mc.ex\u{e9}mple.org").unwrap();
    assert_eq!(read_dns_name(&q, 12), Some("_minecraft._tcp.mc.ex\u{e9}mple.org".to_string()));
    let q = build_srv_query("localhost").unwrap();
    assert_eq!(read_dns_name(&q, 12), Some("_minecraft._tcp.localhost".to_string()));
}
