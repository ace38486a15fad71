use zerotick::error::Error;
use zerotick::net::https::{
    body_for, decode_chunked, get_request, parse_url, response_body, response_text_body,
};

#[test]
fn parses_urls() {
    let (h, p) = parse_url("https://sessionserver.mojang.com/blockedservers").unwrap();
    assert_eq!(h, "sessionserver.mojang.com");
    assert_eq!(p, "/blockedservers");
    let (h2, p2) = parse_url("https://example.com").unwrap();
    assert_eq!(h2, "example.com");
    assert_eq!(p2, "/");
    match parse_url("http://x") {
        Err(Error::MojangApi(m)) => assert_eq!(m, "not HTTPS: http://x"),
        _ => panic!("expected an error"),
    }
}

#[test]
fn builds_request() {
    assert_eq!(
        get_request("example.com", "/a/b"),
        "GET /a/b HTTP/1.1\r\nHost: example.com\r\nConnection: close\r\nUser-Agent: zerotick\r\n\r\n"
    );
}

#[test]
fn decodes_chunks() {
    assert_eq!(decode_chunked("4\r\nWiki\r\n5\r\npedia\r\n0\r\n\r\n"), "Wikipedia");
    assert_eq!(decode_chunked("3\r\nabcdef"), "abc");
    assert_eq!(decode_chunked("a\r\nabc"), "abc");
    assert_eq!(decode_chunked("+2\r\nhi\r\n0\r\n"), "hi");
    assert_eq!(decode_chunked(" 2 \r\nhi\r\n\r\n1\r\n!\r\n0\r\n\r\n"), "hi!");
    assert_eq!(decode_chunked("zz\r\nhi"), "");
    assert_eq!(decode_chunked(""), "");
    assert_eq!(decode_chunked("5\r\nh\u{e9}llo"), "h\u{e9}ll");
}

#[test]
fn reads_responses() {
    let plain = b"HTTP/1.1 200 OK\r\nContent-Length: 5\r\n\r\nhello";
    assert_eq!(response_body(plain).unwrap(), "hello");
    let chunked =
        b"HTTP/1.1 200 OK\r\nTransfer-Encoding: Chunked\r\n\r\n5\r\nhello\r\n0\r\n\r\n";
    assert_eq!(response_body(chunked).unwrap(), "hello");
    match response_body(b"HTTP/1.1 404 Not Found\r\n\r\n") {
        Err(Error::MojangApi(m)) => assert_eq!(m, "HTTP HTTP/1.1 404 Not Found"),
        _ => panic!("expected an HTTP error"),
    }
    match response_body(b"garbage") {
        Err(Error::MojangApi(m)) => assert_eq!(m, "malformed HTTP response"),
        _ => panic!("expected a malformed response"),
    }
    let invalid = b"HTTP/1.1 200 OK\r\n\r\n\xffok";
    assert_eq!(response_body(invalid).unwrap(), "\u{FFFD}ok");
}

#[test]
fn body_by_headers() {
    assert_eq!(body_for("transfer-encoding: chunked", "2\r\nok\r\n0\r\n"), "ok");
    assert_eq!(body_for("content-length: 2", "ok"), "ok");
    assert_eq!(
        response_text_body("HTTP/1.1 200 OK\r\nX: 1\r\n\r\nbody\r\n\r\nmore").unwrap(),
        "body\r\n\r\nmore"
    );
    match response_text_body("HTTP/1.1 500\r\n\r\n") {
        Err(zerotick::error::Error::MojangApi(m)) => assert_eq!(m, "HTTP HTTP/1.1 500"),
        _ => panic!("expected an HTTP error"),
    }
}

#[test]
fn one_chunk_then_the_last() {
    for data in ["x", "hello world", "a\r\nb"] {
        let body = format!("{:x}\r\n{}\r\n0\r\n\r\n", data.len(), data);
        assert_eq!(decode_chunked(&body), data);
    }
}
