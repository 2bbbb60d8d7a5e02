use reqcore::headers::HeaderValues;
use reqcore::ip::IpAddress;
use reqcore::snapshot::{body_text, build_snapshot, peer_text, UriParts};

fn hdr(name: &str, value: &str) -> (String, String) {
    (name.to_string(), value.to_string())
}

#[test]
fn valid_utf8_body_is_kept_verbatim() {
    let body = "test body content".as_bytes().to_vec();
    assert_eq!(body_text(body), "test body content");
    assert_eq!(body_text(Vec::new()), "");
    let unicode = "héllo wörld ✓".as_bytes().to_vec();
    assert_eq!(body_text(unicode), "héllo wörld ✓");
}

#[test]
fn invalid_body_becomes_placeholder_with_full_length() {
    // five bytes, of which only the last two are undecodable: the count
    // still names all five
    let body = vec![b'a', b'b', b'c', 0xff, 0xfe];
    assert_eq!(body_text(body), "<binary 5 bytes>");
    assert_eq!(body_text(vec![0x80]), "<binary 1 bytes>");
    let long = vec![0xff; 1234];
    assert_eq!(body_text(long), "<binary 1234 bytes>");
}

#[test]
fn peer_addresses_render_with_ports() {
    assert_eq!(peer_text(&IpAddress::V4(0x7F000001), 12345), "127.0.0.1:12345");
    assert_eq!(peer_text(&IpAddress::V6(1), 12345), "[::1]:12345");
}

fn parts() -> UriParts {
    UriParts {
        authority: None,
        host: None,
        path: "/echo".to_string(),
        port: None,
        query: None,
        scheme: None,
    }
}

#[test]
fn snapshot_resolves_forwarded_client_through_proxy() {
    let headers = vec![
        hdr("x-forwarded-for", "203.0.113.50, 192.168.1.1"),
        hdr("x-forwarded-proto", "https"),
        hdr("host", "example.test"),
    ];
    let snap = build_snapshot(
        &headers,
        b"hello".to_vec(),
        &IpAddress::V4(0x7F000001),
        12345,
        "POST".to_string(),
        "HTTP/1.1".to_string(),
        "/echo?a=1".to_string(),
        parts(),
        "/echo".to_string(),
        Some("a=1".to_string()),
    );
    assert_eq!(
        snap.connection_info.realip_remote_addr,
        Some("203.0.113.50".to_string())
    );
    assert_eq!(snap.connection_info.peer_addr, "127.0.0.1:12345");
    assert_eq!(snap.connection_info.host, Some("example.test".to_string()));
    assert_eq!(snap.connection_info.scheme, "https");
    assert_eq!(snap.method, "POST");
    assert_eq!(snap.version, "HTTP/1.1");
    assert_eq!(snap.uri, "/echo?a=1");
    assert_eq!(snap.path, "/echo");
    assert_eq!(snap.query_string, "a=1");
    assert_eq!(snap.ip, "127.0.0.1");
    assert_eq!(snap.body, "hello");
}

#[test]
fn snapshot_keeps_no_real_ip_when_it_matches_the_peer() {
    let headers: Vec<(String, String)> = Vec::new();
    let snap = build_snapshot(
        &headers,
        Vec::new(),
        &IpAddress::V4(0xCB007132),
        80,
        "GET".to_string(),
        "HTTP/1.1".to_string(),
        "/".to_string(),
        parts(),
        "/".to_string(),
        None,
    );
    assert_eq!(snap.connection_info.realip_remote_addr, None);
    assert_eq!(snap.connection_info.scheme, "http");
    assert_eq!(snap.connection_info.host, None);
    assert_eq!(snap.query_string, "");
    assert_eq!(snap.body, "");
}

#[test]
fn snapshot_merges_headers_with_the_scalar_list_asymmetry() {
    let headers = vec![
        hdr("x-custom", "first"),
        hdr("x-custom", "second"),
        hdr("accept", "text/plain"),
    ];
    let snap = build_snapshot(
        &headers,
        Vec::new(),
        &IpAddress::V4(0xCB007132),
        80,
        "GET".to_string(),
        "HTTP/1.1".to_string(),
        "/".to_string(),
        parts(),
        "/".to_string(),
        None,
    );
    assert_eq!(snap.headers.len(), 2);
    assert_eq!(snap.headers[0].0, "x-custom");
    match &snap.headers[0].1 {
        HeaderValues::Many(vs) => assert_eq!(vs, &vec!["first".to_string(), "second".to_string()]),
        other => panic!("expected a list for a repeated name, got {other:?}"),
    }
    assert_eq!(snap.headers[1].0, "accept");
    match &snap.headers[1].1 {
        HeaderValues::One(v) => assert_eq!(v, "text/plain"),
        other => panic!("expected a scalar for a single name, got {other:?}"),
    }
}

#[test]
fn snapshot_classifies_the_user_agent() {
    let headers = vec![hdr(
        "user-agent",
        "Mozilla/5.0 (Windows NT 10.0; Win64; x64) AppleWebKit/537.36 (KHTML, like Gecko) Chrome/91.0.4472.124 Safari/537.36",
    )];
    let snap = build_snapshot(
        &headers,
        Vec::new(),
        &IpAddress::V4(0xCB007132),
        80,
        "GET".to_string(),
        "HTTP/1.1".to_string(),
        "/".to_string(),
        parts(),
        "/".to_string(),
        None,
    );
    assert_eq!(snap.user_agent.name, "Chrome");

    let snap = build_snapshot(
        &Vec::new(),
        Vec::new(),
        &IpAddress::V4(0xCB007132),
        80,
        "GET".to_string(),
        "HTTP/1.1".to_string(),
        "/".to_string(),
        parts(),
        "/".to_string(),
        None,
    );
    assert_eq!(snap.user_agent.name, "UNKNOWN");
}
